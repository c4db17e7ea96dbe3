//! Locks and keys drawn as 7-row, 5-column schematics separated by blank lines. A lock
//! starts with an empty corner, a key with a filled one; a pair fits where no column
//! holds more than seven filled cells between them.
use vstd::prelude::*;
use crate::text::{lines, split_lines, views};
use vstd::string::StringSliceAdditionalSpecFns;

verus! {

pub const FILLED: u8 = 35;
pub const EMPTY: u8 = 46;

/// The schematics of `ls`: seven rows of five filled or empty cells each, one blank
/// line between two of them.
pub open spec fn schematics_valid(ls: Seq<Seq<u8>>) -> bool {
    &&& ls.len() % 8 == 7
    &&& forall|i: int|
        0 <= i < ls.len() ==> if i % 8 == 7 {
            #[trigger] ls[i].len() == 0
        } else {
            ls[i].len() == 5 && forall|c: int| 0 <= c < 5 ==> ls[i][c] == FILLED || ls[i][c] == EMPTY
        }
}

pub open spec fn schematic_count(ls: Seq<Seq<u8>>) -> int {
    (ls.len() as int + 1) / 8
}

/// Filled cells in column `c` among the first `r` rows of schematic `k`.
pub open spec fn height(ls: Seq<Seq<u8>>, k: int, c: int, r: int) -> int
    decreases r,
{
    if r <= 0 {
        0
    } else {
        height(ls, k, c, r - 1) + if ls[8 * k + r - 1][c] == FILLED {
            1int
        } else {
            0int
        }
    }
}

/// Schematic `k` is a lock: its top left cell is empty.
pub open spec fn is_lock(ls: Seq<Seq<u8>>, k: int) -> bool {
    ls[8 * k][0] == EMPTY
}

pub open spec fn fits(ls: Seq<Seq<u8>>, a: int, b: int) -> bool {
    forall|c: int| 0 <= c < 5 ==> #[trigger] height(ls, a, c, 7) + height(ls, b, c, 7) <= 7
}

/// Pairs of a lock among the first `m` schematics and a key among the first `n` that fit.
pub open spec fn pairs_with(ls: Seq<Seq<u8>>, a: int, n: int) -> nat
    decreases n,
{
    if n <= 0 {
        0
    } else {
        pairs_with(ls, a, n - 1) + if is_lock(ls, a) && !is_lock(ls, n - 1) && fits(ls, a, n - 1) {
            1nat
        } else {
            0nat
        }
    }
}

pub open spec fn pairs(ls: Seq<Seq<u8>>, m: int, n: int) -> nat
    decreases m,
{
    if m <= 0 {
        0
    } else {
        pairs(ls, m - 1, n) + pairs_with(ls, m - 1, n)
    }
}

proof fn lemma_pairs_with_mono(ls: Seq<Seq<u8>>, a: int, k: int, n: int)
    requires
        k <= n,
    ensures
        pairs_with(ls, a, k) <= pairs_with(ls, a, n),
    decreases n - k,
{
    if k < n {
        lemma_pairs_with_mono(ls, a, k, n - 1);
    }
}

proof fn lemma_pairs_mono(ls: Seq<Seq<u8>>, k: int, m: int, n: int)
    requires
        k <= m,
    ensures
        pairs(ls, k, n) <= pairs(ls, m, n),
    decreases m - k,
{
    if k < m {
        lemma_pairs_mono(ls, k, m - 1, n);
    }
}

proof fn lemma_height_bound(ls: Seq<Seq<u8>>, k: int, c: int, r: int)
    requires
        r >= 0,
    ensures
        0 <= height(ls, k, c, r) <= r,
    decreases r,
{
    if r > 0 {
        lemma_height_bound(ls, k, c, r - 1);
    }
}

/// The filled cells of each column of schematic `k`.
fn heights(ls: &Vec<Vec<u8>>, k: usize, Ghost(lv): Ghost<Seq<Seq<u8>>>) -> (r: Vec<u64>)
    requires
        lv == views(ls@),
        schematics_valid(lv),
        k < schematic_count(lv),
    ensures
        r@.len() == 5,
        forall|c: int| 0 <= c < 5 ==> #[trigger] r@[c] as int == height(lv, k as int, c, 7),
        forall|c: int| 0 <= c < 5 ==> #[trigger] r@[c] <= 7,
{
    let total_lines = ls.len();
    let mut r: Vec<u64> = Vec::new();
    let mut c: usize = 0;
    while c < 5
        invariant
            lv == views(ls@),
            schematics_valid(lv),
            k < schematic_count(lv),
            c <= 5,
            r@.len() == c,
            total_lines == lv.len(),
            forall|j: int| 0 <= j < c ==> #[trigger] r@[j] as int == height(lv, k as int, j, 7),
            forall|j: int| 0 <= j < c ==> #[trigger] r@[j] <= 7,
        decreases 5 - c,
    {
        let mut h: u64 = 0;
        let mut row: usize = 0;
        while row < 7
            invariant
                lv == views(ls@),
                schematics_valid(lv),
                k < schematic_count(lv),
                c < 5,
                row <= 7,
                total_lines == lv.len(),
                h as int == height(lv, k as int, c as int, row as int),
                h <= row,
            decreases 7 - row,
        {
            let line = 8 * k + row;
            proof {
                assert(line < lv.len());
                assert(line % 8 != 7);
                assert(lv[line as int].len() == 5);
            }
            if ls[line][c] == FILLED {
                h += 1;
            }
            row += 1;
        }
        r.push(h);
        c += 1;
    }
    r
}

/// How many lock and key pairs fit together; `None` where `input` is not a list of
/// schematics or the count does not fit in a `usize`.
pub fn part_one(input: &str) -> (r: Option<usize>)
    ensures
        match r {
            Some(v) => schematics_valid(split_lines(input.spec_bytes())) && v == pairs(
                split_lines(input.spec_bytes()),
                schematic_count(split_lines(input.spec_bytes())),
                schematic_count(split_lines(input.spec_bytes())),
            ),
            None => !schematics_valid(split_lines(input.spec_bytes())) || pairs(
                split_lines(input.spec_bytes()),
                schematic_count(split_lines(input.spec_bytes())),
                schematic_count(split_lines(input.spec_bytes())),
            ) > usize::MAX,
        },
{
    let ls = lines(input.as_bytes());
    let ghost lv = views(ls@);
    assert(lv == split_lines(input.spec_bytes()));
    if ls.len() % 8 != 7 {
        return None;
    }
    let mut i: usize = 0;
    while i < ls.len()
        invariant
            lv == views(ls@),
            lv == split_lines(input.spec_bytes()),
            lv.len() % 8 == 7,
            i <= lv.len(),
            forall|j: int|
                0 <= j < i ==> if j % 8 == 7 {
                    #[trigger] lv[j].len() == 0
                } else {
                    lv[j].len() == 5 && forall|c: int| 0 <= c < 5 ==> lv[j][c] == FILLED || lv[j][c] == EMPTY
                },
        decreases lv.len() - i,
    {
        let line = &ls[i];
        assert(line@ == lv[i as int]);
        assert(lv == split_lines(input.spec_bytes()));
        if i % 8 == 7 {
            if line.len() != 0 {
                return None;
            }
        } else {
            if line.len() != 5 {
                return None;
            }
            let mut c: usize = 0;
            while c < 5
                invariant
                    line@.len() == 5,
                    line@ == lv[i as int],
                    lv == split_lines(input.spec_bytes()),
                    i < lv.len(),
                    i % 8 != 7,
                    c <= 5,
                    forall|d: int| 0 <= d < c ==> line@[d] == FILLED || line@[d] == EMPTY,
                decreases 5 - c,
            {
                if line[c] != FILLED && line[c] != EMPTY {
                    assert(!(lv[i as int][c as int] == FILLED || lv[i as int][c as int] == EMPTY));
                    assert(!schematics_valid(lv));
                    return None;
                }
                c += 1;
            }
        }
        i += 1;
    }
    assert(schematics_valid(lv));
    let total_lines = ls.len();
    let n = total_lines / 8 + 1;
    let mut total: usize = 0;
    let mut a: usize = 0;
    while a < n
        invariant
            lv == views(ls@),
            lv == split_lines(input.spec_bytes()),
            schematics_valid(lv),
            n == schematic_count(lv),
            total_lines == lv.len(),
            a <= n,
            total == pairs(lv, a as int, n as int),
        decreases n - a,
    {
        let ha = heights(&ls, a, Ghost(lv));
        proof {
            assert((8 * a) % 8 == 0) by (nonlinear_arith);
            assert(8 * a < lv.len());
            assert(lv[8 * a].len() == 5);
            lemma_pairs_mono(lv, a + 1, n as int, n as int);
        }
        let lock = ls[8 * a][0] == EMPTY;
        let mut b: usize = 0;
        while b < n
            invariant
                lv == views(ls@),
                lv == split_lines(input.spec_bytes()),
                schematics_valid(lv),
                n == schematic_count(lv),
                total_lines == lv.len(),
                a < n,
                b <= n,
                pairs(lv, a + 1, n as int) <= pairs(lv, n as int, n as int),
                lock == is_lock(lv, a as int),
                ha@.len() == 5,
                forall|c: int| 0 <= c < 5 ==> #[trigger] ha@[c] as int == height(lv, a as int, c, 7),
                total == pairs(lv, a as int, n as int) + pairs_with(lv, a as int, b as int),
            decreases n - b,
        {
            proof {
                assert((8 * b) % 8 == 0) by (nonlinear_arith);
                assert(8 * b < lv.len());
                assert(lv[8 * b].len() == 5);
            }
            let key = ls[8 * b][0] != EMPTY;
            if lock && key {
                let hb = heights(&ls, b, Ghost(lv));
                proof {
                    assert forall|d: int| 0 <= d < 5 implies #[trigger] height(lv, a as int, d, 7) <= 7 by {
                        lemma_height_bound(lv, a as int, d, 7);
                    }
                    assert forall|d: int| 0 <= d < 5 implies #[trigger] height(lv, b as int, d, 7) <= 7 by {
                        lemma_height_bound(lv, b as int, d, 7);
                    }
                }
                let mut ok = true;
                let mut c: usize = 0;
                while c < 5
                    invariant
                        c <= 5,
                        ha@.len() == 5,
                        hb@.len() == 5,
                        forall|d: int| 0 <= d < 5 ==> #[trigger] ha@[d] as int == height(lv, a as int, d, 7),
                        forall|d: int| 0 <= d < 5 ==> #[trigger] hb@[d] as int == height(lv, b as int, d, 7),
                        forall|d: int| 0 <= d < 5 ==> #[trigger] height(lv, a as int, d, 7) <= 7,
                        forall|d: int| 0 <= d < 5 ==> #[trigger] height(lv, b as int, d, 7) <= 7,
                        ok == forall|d: int| 0 <= d < c ==> #[trigger] height(lv, a as int, d, 7) + height(lv, b as int, d, 7) <= 7,
                    decreases 5 - c,
                {
                    if ha[c] + hb[c] > 7 {
                        ok = false;
                    }
                    c += 1;
                }
                if ok {
                    proof {
                        lemma_pairs_with_mono(lv, a as int, b + 1, n as int);
                    }
                    total = match total.checked_add(1) {
                        Some(t) => t,
                        None => return None,
                    };
                }
            }
            b += 1;
        }
        a += 1;
    }
    Some(total)
}

/// The last day has no second puzzle.
pub fn part_two(_input: &str) -> (r: Option<u32>)
    ensures
        r is None,
{
    None
}

} // verus!
