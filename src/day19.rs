//! Towel designs: a design is a string of stripe colours, and it can be laid out
//! where some sequence of the available towel patterns spells it exactly.
use vstd::prelude::*;
use crate::text::{lines, split_lines, usize_answer, views};
use vstd::string::StringSliceAdditionalSpecFns;

verus! {

pub const COMMA: u8 = 44;
pub const SPACE: u8 = 32;

pub open spec fn separator(b: u8) -> bool {
    b == COMMA || b == SPACE
}

/// The words read, and the one under way, after the first `n` bytes of `s`, where
/// commas and spaces separate words.
pub open spec fn scan_words(s: Seq<u8>, n: int) -> (Seq<Seq<u8>>, Seq<u8>)
    decreases n,
{
    if n <= 0 {
        (seq![], seq![])
    } else {
        let (done, cur) = scan_words(s, n - 1);
        if separator(s[n - 1]) {
            if cur.len() > 0 {
                (done.push(cur), seq![])
            } else {
                (done, cur)
            }
        } else {
            (done, cur.push(s[n - 1]))
        }
    }
}

/// The towel patterns listed in `s`.
pub open spec fn words(s: Seq<u8>) -> Seq<Seq<u8>> {
    let (done, cur) = scan_words(s, s.len() as int);
    if cur.len() > 0 {
        done.push(cur)
    } else {
        done
    }
}

fn read_words(s: &Vec<u8>) -> (r: Vec<Vec<u8>>)
    ensures
        views(r@) == words(s@),
        forall|i: int| 0 <= i < r@.len() ==> #[trigger] r@[i]@.len() > 0,
{
    let mut done: Vec<Vec<u8>> = Vec::new();
    let mut cur: Vec<u8> = Vec::new();
    let mut i: usize = 0;
    while i < s.len()
        invariant
            i <= s@.len(),
            (views(done@), cur@) == scan_words(s@, i as int),
            forall|k: int| 0 <= k < done@.len() ==> #[trigger] done@[k]@.len() > 0,
        decreases s@.len() - i,
    {
        let b = s[i];
        if b == COMMA || b == SPACE {
            if cur.len() > 0 {
                let ghost before = views(done@);
                let w = cur;
                cur = Vec::new();
                done.push(w);
                assert(views(done@) =~= before.push(w@));
            }
        } else {
            cur.push(b);
        }
        i += 1;
    }
    if cur.len() > 0 {
        let ghost before = views(done@);
        let ghost last = cur@;
        done.push(cur);
        assert(views(done@) =~= before.push(last));
    }
    done
}

/// Pattern `p` is spelled at position `i` of `d`.
pub open spec fn starts_with_at(d: Seq<u8>, i: int, p: Seq<u8>) -> bool {
    i + p.len() <= d.len() && d.subrange(i, i + p.len() as int) == p
}

/// The ways to spell `d[i..]` with the first `k` patterns as the first towel, each
/// followed by any way to spell the rest.
pub open spec fn ways_with(d: Seq<u8>, pats: Seq<Seq<u8>>, i: int, k: int) -> nat
    decreases d.len() - i, 0int, k,
{
    if k <= 0 || i >= d.len() || i < 0 {
        0
    } else {
        let p = pats[k - 1];
        ways_with(d, pats, i, k - 1) + if p.len() > 0 && starts_with_at(d, i, p) {
            ways(d, pats, i + p.len())
        } else {
            0
        }
    }
}

/// The ways to spell `d[i..]` with the patterns.
pub open spec fn ways(d: Seq<u8>, pats: Seq<Seq<u8>>, i: int) -> nat
    decreases d.len() - i, 1int, 0int,
{
    if i >= d.len() {
        1
    } else {
        ways_with(d, pats, i, pats.len() as int)
    }
}

/// The text lists patterns, then a blank line, then designs.
pub open spec fn towels_valid(ls: Seq<Seq<u8>>) -> bool {
    ls.len() >= 2 && ls[1].len() == 0
}

/// Over designs `2..n` of `ls`: how many can be spelled, or the ways summed.
pub open spec fn design_total(ls: Seq<Seq<u8>>, n: int, count_ways: bool) -> nat
    decreases n,
{
    if n <= 2 {
        0
    } else {
        let w = ways(ls[n - 1], words(ls[0]), 0);
        design_total(ls, n - 1, count_ways) + if count_ways {
            w
        } else if w > 0 {
            1
        } else {
            0
        }
    }
}

fn matches_at(d: &Vec<u8>, i: usize, p: &Vec<u8>) -> (r: bool)
    requires
        i <= d@.len(),
    ensures
        r == starts_with_at(d@, i as int, p@),
{
    let dl = d.len();
    if p.len() > dl - i {
        return false;
    }
    let mut j: usize = 0;
    while j < p.len()
        invariant
            dl == d@.len(),
            i + p@.len() <= d@.len(),
            j <= p@.len(),
            forall|k: int| 0 <= k < j ==> d@[i + k] == p@[k],
        decreases p@.len() - j,
    {
        if d[i + j] != p[j] {
            assert(d@.subrange(i as int, i + p@.len())[j as int] != p@[j as int]);
            return false;
        }
        j += 1;
    }
    assert(d@.subrange(i as int, i + p@.len()) =~= p@);
    true
}

/// The ways to spell each suffix of `d`, from the end; `None` where a count exceeds
/// 64 bits.
fn count_ways(d: &Vec<u8>, pats: &Vec<Vec<u8>>) -> (r: Option<u64>)
    requires
        forall|k: int| 0 <= k < pats@.len() ==> #[trigger] pats@[k]@.len() > 0,
    ensures
        match r {
            Some(v) => v as nat == ways(d@, views(pats@), 0),
            None => ways(d@, views(pats@), 0) > u64::MAX,
        },
{
    let ghost pv = views(pats@);
    let n = d.len();
    // table[j] holds the ways for d[n - j..]
    let mut table: Vec<Option<u64>> = Vec::new();
    table.push(Some(1));
    let mut i: usize = n;
    while i > 0
        invariant
            pv == views(pats@),
            forall|k: int| 0 <= k < pats@.len() ==> #[trigger] pats@[k]@.len() > 0,
            n == d@.len(),
            i <= n,
            table@.len() == n - i + 1,
            forall|j: int| i <= j <= n ==> match #[trigger] table@[n - j] {
                Some(v) => v as nat == ways(d@, pv, j),
                None => ways(d@, pv, j) > u64::MAX,
            },
        decreases i,
    {
        i -= 1;
        let mut acc: Option<u64> = Some(0);
        let mut k: usize = 0;
        while k < pats.len()
            invariant
                pv == views(pats@),
                forall|k: int| 0 <= k < pats@.len() ==> #[trigger] pats@[k]@.len() > 0,
                n == d@.len(),
                i < n,
                table@.len() == n - i,
                forall|j: int| i < j <= n ==> match #[trigger] table@[n - j] {
                    Some(v) => v as nat == ways(d@, pv, j),
                    None => ways(d@, pv, j) > u64::MAX,
                },
                k <= pats@.len(),
                match acc {
                    Some(v) => v as nat == ways_with(d@, pv, i as int, k as int),
                    None => ways_with(d@, pv, i as int, k as int) > u64::MAX,
                },
            decreases pats@.len() - k,
        {
            let p = &pats[k];
            assert(pv[k as int] == p@);
            if matches_at(d, i, p) {
                let j = i + p.len();
                let term = table[n - j];
                acc = match (acc, term) {
                    (Some(a), Some(t)) => a.checked_add(t),
                    _ => None,
                };
            }
            k += 1;
        }
        table.push(acc);
    }
    table[n]
}

/// Over the designs in `input`, how many can be spelled (`count_ways` false) or all
/// the ways summed; `None` where `input` lacks the blank line after the patterns, a
/// count exceeds 64 bits, or the total does not fit in a `usize`.
pub fn design_count(input: &str, count_ways_too: bool) -> (r: Option<usize>)
    ensures
        usize_answer(
            r,
            towels_valid(split_lines(input.spec_bytes())),
            design_total(split_lines(input.spec_bytes()), split_lines(input.spec_bytes()).len() as int, count_ways_too),
        ),
{
    let ls = lines(input.as_bytes());
    let ghost lv = views(ls@);
    if ls.len() < 2 || ls[1].len() != 0 {
        proof {
            if lv.len() >= 2 {
                assert(lv[1] == ls@[1]@);
            }
        }
        return None;
    }
    assert(lv[0] == ls@[0]@);
    let pats = read_words(&ls[0]);
    let mut total: usize = 0;
    let mut i: usize = 2;
    while i < ls.len()
        invariant
            lv == views(ls@),
            lv == split_lines(input.spec_bytes()),
            towels_valid(lv),
            views(pats@) == words(lv[0]),
            forall|k: int| 0 <= k < pats@.len() ==> #[trigger] pats@[k]@.len() > 0,
            2 <= i <= lv.len(),
            total as nat == design_total(lv, i as int, count_ways_too),
        decreases lv.len() - i,
    {
        assert(lv[i as int] == ls@[i as int]@);
        proof {
            lemma_total_mono(lv, i + 1, lv.len() as int, count_ways_too);
        }
        let w = match count_ways(&ls[i], &pats) {
            Some(w) => w,
            None => {
                if count_ways_too {
                    return None;
                }
                2
            },
        };
        let add: u64 = if count_ways_too {
            w
        } else if w > 0 {
            1
        } else {
            0
        };
        if add > usize::MAX as u64 {
            return None;
        }
        total = match total.checked_add(add as usize) {
            Some(t) => t,
            None => return None,
        };
        i += 1;
    }
    Some(total)
}

proof fn lemma_total_mono(ls: Seq<Seq<u8>>, k: int, n: int, count_ways: bool)
    requires
        k <= n,
    ensures
        design_total(ls, k, count_ways) <= design_total(ls, n, count_ways),
    decreases n - k,
{
    if k < n {
        lemma_total_mono(ls, k, n - 1, count_ways);
    }
}

/// How many designs in `input` can be laid out; `None` also where none can.
pub fn part_one(input: &str) -> (r: Option<u32>)
    ensures
        match r {
            Some(c) => towels_valid(split_lines(input.spec_bytes())) && c > 0 && c as nat == design_total(
                split_lines(input.spec_bytes()),
                split_lines(input.spec_bytes()).len() as int,
                false,
            ),
            None => !towels_valid(split_lines(input.spec_bytes())) || design_total(
                split_lines(input.spec_bytes()),
                split_lines(input.spec_bytes()).len() as int,
                false,
            ) == 0 || design_total(
                split_lines(input.spec_bytes()),
                split_lines(input.spec_bytes()).len() as int,
                false,
            ) > u32::MAX,
        },
{
    match design_count(input, false) {
        Some(c) => if c > 0 && c <= u32::MAX as usize {
            Some(c as u32)
        } else {
            None
        },
        None => None,
    }
}

/// The ways to lay out all the designs in `input`, summed; `None` also where there are
/// none.
pub fn part_two(input: &str) -> (r: Option<usize>)
    ensures
        match r {
            Some(c) => towels_valid(split_lines(input.spec_bytes())) && c > 0 && c as nat == design_total(
                split_lines(input.spec_bytes()),
                split_lines(input.spec_bytes()).len() as int,
                true,
            ),
            None => !towels_valid(split_lines(input.spec_bytes())) || design_total(
                split_lines(input.spec_bytes()),
                split_lines(input.spec_bytes()).len() as int,
                true,
            ) == 0 || design_total(
                split_lines(input.spec_bytes()),
                split_lines(input.spec_bytes()).len() as int,
                true,
            ) > usize::MAX,
        },
{
    match design_count(input, true) {
        Some(c) => if c > 0 {
            Some(c)
        } else {
            None
        },
        None => None,
    }
}

} // verus!
