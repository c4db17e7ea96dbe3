//! A word search: count the times XMAS is written in any of eight directions, and the
//! times two MAS cross in an X.
use vstd::prelude::*;
use crate::text::{lines, split_lines, u32_answer, views};
use vstd::string::StringSliceAdditionalSpecFns;

verus! {

pub const LETTER_X: u8 = 88;
pub const LETTER_M: u8 = 77;
pub const LETTER_A: u8 = 65;
pub const LETTER_S: u8 = 83;

/// The letter at row `r`, column `c`, or `None` off the grid.
pub open spec fn cell(g: Seq<Seq<u8>>, r: int, c: int) -> Option<u8> {
    if 0 <= r < g.len() && 0 <= c < g[r].len() {
        Some(g[r][c])
    } else {
        None
    }
}

/// Row step of direction `k`: the eight neighbours, in order.
pub open spec fn dir_r(k: int) -> int {
    if k == 0 || k == 4 || k == 5 {
        1
    } else if k == 2 || k == 6 || k == 7 {
        -1
    } else {
        0
    }
}

pub open spec fn dir_c(k: int) -> int {
    if k == 1 || k == 4 || k == 6 {
        1
    } else if k == 3 || k == 5 || k == 7 {
        -1
    } else {
        0
    }
}

/// XMAS is written from (r, c) in direction `k`.
pub open spec fn xmas_at(g: Seq<Seq<u8>>, r: int, c: int, k: int) -> bool {
    &&& cell(g, r, c) == Some(LETTER_X)
    &&& cell(g, r + dir_r(k), c + dir_c(k)) == Some(LETTER_M)
    &&& cell(g, r + 2 * dir_r(k), c + 2 * dir_c(k)) == Some(LETTER_A)
    &&& cell(g, r + 3 * dir_r(k), c + 3 * dir_c(k)) == Some(LETTER_S)
}

/// How many of the first `n` directions spell XMAS from (r, c).
pub open spec fn words_at(g: Seq<Seq<u8>>, r: int, c: int, n: int) -> nat
    decreases n,
{
    if n <= 0 {
        0
    } else {
        words_at(g, r, c, n - 1) + if xmas_at(g, r, c, n - 1) {
            1nat
        } else {
            0nat
        }
    }
}

/// The two letters at either end of a diagonal through the centre are M and S.
pub open spec fn mas_ends(a: Option<u8>, b: Option<u8>) -> bool {
    (a == Some(LETTER_M) && b == Some(LETTER_S)) || (a == Some(LETTER_S) && b == Some(LETTER_M))
}

/// Two MAS cross at (r, c).
pub open spec fn cross_at(g: Seq<Seq<u8>>, r: int, c: int) -> bool {
    &&& cell(g, r, c) == Some(LETTER_A)
    &&& mas_ends(cell(g, r - 1, c - 1), cell(g, r + 1, c + 1))
    &&& mas_ends(cell(g, r - 1, c + 1), cell(g, r + 1, c - 1))
}

/// What a cell counts for: the words that start there, or whether a cross is centred there.
pub open spec fn cell_score(g: Seq<Seq<u8>>, r: int, c: int, crosses: bool) -> nat {
    if crosses {
        if cross_at(g, r, c) {
            1
        } else {
            0
        }
    } else {
        words_at(g, r, c, 8)
    }
}

/// The scores of the first `n` cells of row `r`.
pub open spec fn row_score(g: Seq<Seq<u8>>, r: int, n: int, crosses: bool) -> nat
    decreases n,
{
    if n <= 0 {
        0
    } else {
        row_score(g, r, n - 1, crosses) + cell_score(g, r, n - 1, crosses)
    }
}

/// The scores of the cells of the first `n` rows.
pub open spec fn grid_score(g: Seq<Seq<u8>>, n: int, crosses: bool) -> nat
    decreases n,
{
    if n <= 0 {
        0
    } else {
        grid_score(g, n - 1, crosses) + row_score(g, n - 1, g[n - 1].len() as int, crosses)
    }
}

pub open spec fn puzzle_score(text: Seq<u8>, crosses: bool) -> nat {
    let g = split_lines(text);
    grid_score(g, g.len() as int, crosses)
}

proof fn lemma_row_monotone(g: Seq<Seq<u8>>, r: int, k: int, n: int, crosses: bool)
    requires
        k <= n,
    ensures
        row_score(g, r, k, crosses) <= row_score(g, r, n, crosses),
    decreases n - k,
{
    if k < n {
        lemma_row_monotone(g, r, k, n - 1, crosses);
    }
}

proof fn lemma_grid_monotone(g: Seq<Seq<u8>>, k: int, n: int, crosses: bool)
    requires
        k <= n,
    ensures
        grid_score(g, k, crosses) <= grid_score(g, n, crosses),
    decreases n - k,
{
    if k < n {
        lemma_grid_monotone(g, k, n - 1, crosses);
    }
}

fn cell_at(g: &Vec<Vec<u8>>, r: i128, c: i128) -> (res: Option<u8>)
    ensures
        res == cell(views(g@), r as int, c as int),
{
    if r < 0 || c < 0 || r >= g.len() as i128 {
        return None;
    }
    let row = &g[r as usize];
    if c >= row.len() as i128 {
        return None;
    }
    Some(row[c as usize])
}

fn step_r(k: usize) -> (r: i128)
    ensures
        r == dir_r(k as int),
        -1 <= r <= 1,
{
    if k == 0 || k == 4 || k == 5 {
        1
    } else if k == 2 || k == 6 || k == 7 {
        -1
    } else {
        0
    }
}

fn step_c(k: usize) -> (r: i128)
    ensures
        r == dir_c(k as int),
        -1 <= r <= 1,
{
    if k == 1 || k == 4 || k == 6 {
        1
    } else if k == 3 || k == 5 || k == 7 {
        -1
    } else {
        0
    }
}

fn score_at(g: &Vec<Vec<u8>>, r: usize, c: usize, crosses: bool) -> (res: u32)
    ensures
        res as nat == cell_score(views(g@), r as int, c as int, crosses),
{
    let (ri, ci) = (r as i128, c as i128);
    if crosses {
        let centre = cell_at(g, ri, ci);
        let a = cell_at(g, ri - 1, ci - 1);
        let b = cell_at(g, ri + 1, ci + 1);
        let p = cell_at(g, ri - 1, ci + 1);
        let q = cell_at(g, ri + 1, ci - 1);
        let m = Some(LETTER_M);
        let s = Some(LETTER_S);
        if centre == Some(LETTER_A) && ((a == m && b == s) || (a == s && b == m)) && ((p == m
            && q == s) || (p == s && q == m)) {
            1
        } else {
            0
        }
    } else {
        let mut count: u32 = 0;
        let mut k: usize = 0;
        while k < 8
            invariant
                k <= 8,
                ri == r as i128,
                ci == c as i128,
                count as nat == words_at(views(g@), r as int, c as int, k as int),
                count <= k,
            decreases 8 - k,
        {
            let dr = step_r(k);
            let dc = step_c(k);
            if cell_at(g, ri, ci) == Some(LETTER_X) && cell_at(g, ri + dr, ci + dc) == Some(LETTER_M)
                && cell_at(g, ri + 2 * dr, ci + 2 * dc) == Some(LETTER_A) && cell_at(
                g,
                ri + 3 * dr,
                ci + 3 * dc,
            ) == Some(LETTER_S) {
                count += 1;
            }
            k += 1;
        }
        count
    }
}

/// The sum of cell scores over the grid in `input`; `None` where it exceeds `u32`.
fn count_grid(input: &str, crosses: bool) -> (r: Option<u32>)
    ensures
        u32_answer(r, true, puzzle_score(input.spec_bytes(), crosses)),
{
    let g = lines(input.as_bytes());
    let ghost gv = views(g@);
    let mut total: u32 = 0;
    let mut r: usize = 0;
    while r < g.len()
        invariant
            gv == views(g@),
            gv == split_lines(input.spec_bytes()),
            r <= gv.len(),
            total as nat == grid_score(gv, r as int, crosses),
        decreases gv.len() - r,
    {
        let row_len = g[r].len();
        let mut c: usize = 0;
        proof {
            lemma_grid_monotone(gv, r + 1, gv.len() as int, crosses);
        }
        while c < row_len
            invariant
                gv == views(g@),
                gv == split_lines(input.spec_bytes()),
                r < gv.len(),
                row_len == gv[r as int].len(),
                c <= row_len,
                grid_score(gv, r + 1, crosses) <= grid_score(gv, gv.len() as int, crosses),
                total as nat == grid_score(gv, r as int, crosses) + row_score(gv, r as int, c as int, crosses),
            decreases row_len - c,
        {
            let s = score_at(&g, r, c, crosses);
            proof {
                lemma_row_monotone(gv, r as int, c + 1, row_len as int, crosses);
            }
            match total.checked_add(s) {
                Some(t) => total = t,
                None => return None,
            }
            c += 1;
        }
        r += 1;
    }
    Some(total)
}

/// How many times XMAS is written in the grid in `input`, in any of eight directions.
pub fn part_one(input: &str) -> (r: Option<u32>)
    ensures
        u32_answer(r, true, puzzle_score(input.spec_bytes(), false)),
{
    count_grid(input, false)
}

/// How many times two MAS cross in an X in the grid in `input`.
pub fn part_two(input: &str) -> (r: Option<u32>)
    ensures
        u32_answer(r, true, puzzle_score(input.spec_bytes(), true)),
{
    count_grid(input, true)
}

} // verus!
