//! Corrupted memory holding `mul(X,Y)` instructions, X and Y of one to three digits,
//! among noise; `do()` and `don't()` switch the instructions after them on and off.
use vstd::prelude::*;
use crate::text::{is_digit, u32_answer};
use vstd::string::StringSliceAdditionalSpecFns;

verus! {

/// `s[i..]` starts with the bytes of `w`.
pub open spec fn word_at(s: Seq<u8>, i: int, w: Seq<u8>) -> bool {
    0 <= i && i + w.len() <= s.len() && s.subrange(i, i + w.len() as int) == w
}

pub open spec fn mul_word() -> Seq<u8> {
    seq![109u8, 117, 108, 40]
}

pub open spec fn do_word() -> Seq<u8> {
    seq![100u8, 111, 40, 41]
}

pub open spec fn dont_word() -> Seq<u8> {
    seq![100u8, 111, 110, 39, 116, 40, 41]
}

/// The count of digits that start at `j`, stopping after three.
pub open spec fn digit_run(s: Seq<u8>, j: int) -> int {
    if !(0 <= j < s.len() && is_digit(s[j])) {
        0
    } else if !(j + 1 < s.len() && is_digit(s[j + 1])) {
        1
    } else if !(j + 2 < s.len() && is_digit(s[j + 2])) {
        2
    } else {
        3
    }
}

/// The value of the `k` digits at `j`.
pub open spec fn digits_value(s: Seq<u8>, j: int, k: int) -> nat
    decreases k,
{
    if k <= 0 {
        0
    } else {
        digits_value(s, j, k - 1) * 10 + (s[j + k - 1] - 48) as nat
    }
}

/// The product that a `mul(X,Y)` starting at `i` asks for, or `None` where none does.
pub open spec fn mul_at(s: Seq<u8>, i: int) -> Option<nat> {
    let a = i + 4;
    let ka = digit_run(s, a);
    let b = a + ka + 1;
    let kb = digit_run(s, b);
    let close = b + kb;
    if word_at(s, i, mul_word()) && ka > 0 && a + ka < s.len() && s[a + ka] == 44 && kb > 0 && close
        < s.len() && s[close] == 41 {
        Some(digits_value(s, a, ka) * digits_value(s, b, kb))
    } else {
        None
    }
}

/// Whether instructions at `i` are on: the last `do()` or `don't()` before wins, on at
/// the start.
pub open spec fn enabled(s: Seq<u8>, i: int) -> bool
    decreases i,
{
    if i <= 0 {
        true
    } else if word_at(s, i - 1, do_word()) {
        true
    } else if word_at(s, i - 1, dont_word()) {
        false
    } else {
        enabled(s, i - 1)
    }
}

/// The products of the instructions starting before `n`, only those switched on where
/// `switches` holds.
pub open spec fn product_sum(s: Seq<u8>, n: int, switches: bool) -> nat
    decreases n,
{
    if n <= 0 {
        0
    } else {
        product_sum(s, n - 1, switches) + match mul_at(s, n - 1) {
            Some(p) => if !switches || enabled(s, n - 1) {
                p
            } else {
                0
            },
            None => 0,
        }
    }
}

fn has_word(s: &[u8], i: usize, w: &[u8]) -> (r: bool)
    requires
        i <= s@.len(),
    ensures
        r == word_at(s@, i as int, w@),
{
    let n = s.len();
    if w.len() > n - i {
        return false;
    }
    let mut k: usize = 0;
    while k < w.len()
        invariant
            n == s@.len(),
            i + w@.len() <= n,
            k <= w@.len(),
            forall|j: int| 0 <= j < k ==> s@[i + j] == w@[j],
        decreases w@.len() - k,
    {
        if s[i + k] != w[k] {
            assert(s@.subrange(i as int, i + w@.len())[k as int] != w@[k as int]);
            return false;
        }
        k += 1;
    }
    assert(s@.subrange(i as int, i + w@.len()) =~= w@);
    true
}

fn run_at(s: &[u8], j: usize) -> (r: usize)
    ensures
        r as int == digit_run(s@, j as int),
        r <= 3,
{
    let n = s.len();
    if !(j < n && 48 <= s[j] && s[j] <= 57) {
        0
    } else if !(j < n - 1 && 48 <= s[j + 1] && s[j + 1] <= 57) {
        1
    } else if !(j < n - 2 && 48 <= s[j + 2] && s[j + 2] <= 57) {
        2
    } else {
        3
    }
}

fn value_at(s: &[u8], j: usize, k: usize) -> (r: u32)
    requires
        k <= 3,
        j + k <= s@.len(),
        forall|t: int| j <= t < j + k ==> is_digit(#[trigger] s@[t]),
    ensures
        r as nat == digits_value(s@, j as int, k as int),
        r <= 999,
{
    let n = s.len();
    let mut v: u32 = 0;
    let mut t: usize = 0;
    while t < k
        invariant
            n == s@.len(),
            k <= 3,
            j + k <= s@.len(),
            forall|u: int| j <= u < j + k ==> is_digit(#[trigger] s@[u]),
            t <= k,
            v as nat == digits_value(s@, j as int, t as int),
            v < pow10_small(t as int),
        decreases k - t,
    {
        assert(is_digit(s@[j + t]));
        v = v * 10 + (s[j + t] - 48) as u32;
        t += 1;
    }
    v
}

pub open spec fn pow10_small(t: int) -> int {
    if t <= 0 {
        1
    } else if t == 1 {
        10
    } else if t == 2 {
        100
    } else {
        1000
    }
}

fn mul_here(s: &[u8], i: usize) -> (r: Option<u32>)
    requires
        i <= s@.len(),
    ensures
        match r {
            Some(p) => mul_at(s@, i as int) == Some(p as nat),
            None => mul_at(s@, i as int) is None,
        },
{
    let n = s.len();
    let mul: [u8; 4] = [109, 117, 108, 40];
    assert(mul@ =~= mul_word());
    if !has_word(s, i, &mul) {
        return None;
    }
    let a = i + 4;
    let ka = run_at(s, a);
    if ka == 0 || ka >= n - a || s[a + ka] != 44 {
        return None;
    }
    let b = a + ka + 1;
    let kb = run_at(s, b);
    if kb == 0 || kb >= n - b || s[b + kb] != 41 {
        return None;
    }
    let x = value_at(s, a, ka);
    let y = value_at(s, b, kb);
    assert(x * y <= 999 * 999) by (nonlinear_arith)
        requires
            x <= 999,
            y <= 999,
    ;
    Some(x * y)
}

/// The products of the `mul` instructions in `input`, summed; with `switches`, only
/// those switched on. `None` where the sum does not fit in a `u32`.
pub fn product_total(input: &str, switches: bool) -> (r: Option<u32>)
    ensures
        u32_answer(r, true, product_sum(input.spec_bytes(), input.spec_bytes().len() as int, switches)),
{
    let s = input.as_bytes();
    let n = s.len();
    let dw: [u8; 4] = [100, 111, 40, 41];
    let nw: [u8; 7] = [100, 111, 110, 39, 116, 40, 41];
    assert(dw@ =~= do_word());
    assert(nw@ =~= dont_word());
    let mut on = true;
    let mut total: u32 = 0;
    let mut i: usize = 0;
    while i < n
        invariant
            n == s@.len(),
            s@ == input.spec_bytes(),
            dw@ == do_word(),
            nw@ == dont_word(),
            i <= n,
            on == enabled(s@, i as int),
            total as nat == product_sum(s@, i as int, switches),
        decreases n - i,
    {
        proof {
            lemma_sum_mono(s@, i + 1, n as int, switches);
        }
        match mul_here(s, i) {
            Some(p) => {
                if !switches || on {
                    total = match total.checked_add(p) {
                        Some(t) => t,
                        None => return None,
                    };
                }
            },
            None => {},
        }
        if has_word(s, i, &dw) {
            on = true;
        } else if has_word(s, i, &nw) {
            on = false;
        }
        i += 1;
    }
    Some(total)
}

proof fn lemma_sum_mono(s: Seq<u8>, k: int, n: int, switches: bool)
    requires
        k <= n,
    ensures
        product_sum(s, k, switches) <= product_sum(s, n, switches),
    decreases n - k,
{
    if k < n {
        lemma_sum_mono(s, k, n - 1, switches);
    }
}

/// The sum of every `mul` product in `input`.
pub fn part_one(input: &str) -> (r: Option<u32>)
    ensures
        u32_answer(r, true, product_sum(input.spec_bytes(), input.spec_bytes().len() as int, false)),
{
    product_total(input, false)
}

/// The sum of the `mul` products in `input` that are switched on.
pub fn part_two(input: &str) -> (r: Option<u32>)
    ensures
        u32_answer(r, true, product_sum(input.spec_bytes(), input.spec_bytes().len() as int, true)),
{
    product_total(input, true)
}

} // verus!
