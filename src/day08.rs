//! Antennas on a map, one letter or digit per frequency. Two antennas of one frequency
//! make antinodes: in the first part at the tiles twice as far from one as from the
//! other, in line with both; in the second at every tile in line with both.
use vstd::prelude::*;
use crate::grid::{read_grid, text_grid};
use crate::text::usize_answer;
use vstd::string::StringSliceAdditionalSpecFns;

verus! {

pub const DOT: u8 = 46;

pub open spec fn col(i: int, w: int) -> int {
    i % w
}

pub open spec fn row(i: int, w: int) -> int {
    i / w
}

/// Tile `p` is an antinode of the antennas at `a` and `b`.
pub open spec fn antinode_of(p: int, a: int, b: int, w: int, harmonics: bool) -> bool {
    let (px, py, ax, ay, bx, by) = (col(p, w), row(p, w), col(a, w), row(a, w), col(b, w), row(b, w));
    if harmonics {
        (px - ax) * (by - ay) == (py - ay) * (bx - ax)
    } else {
        px == 2 * ax - bx && py == 2 * ay - by
    }
}

/// Two different antennas of one frequency.
pub open spec fn pair(cells: Seq<u8>, a: int, b: int) -> bool {
    0 <= a < cells.len() && 0 <= b < cells.len() && a != b && cells[a] != DOT && cells[a] == cells[b]
}

pub open spec fn is_antinode(cells: Seq<u8>, w: int, p: int, harmonics: bool) -> bool {
    exists|a: int, b: int| #[trigger] pair(cells, a, b) && antinode_of(p, a, b, w, harmonics)
}

/// The antinodes among the first `m` tiles.
pub open spec fn antinodes(cells: Seq<u8>, w: int, m: int, harmonics: bool) -> nat
    decreases m,
{
    if m <= 0 {
        0
    } else {
        antinodes(cells, w, m - 1, harmonics) + if is_antinode(cells, w, m - 1, harmonics) {
            1nat
        } else {
            0nat
        }
    }
}

pub open spec fn map_antinodes(text: Seq<u8>, harmonics: bool) -> nat {
    let (cells, w, h) = text_grid(text)->0;
    antinodes(cells, w, cells.len() as int, harmonics)
}

fn antennas(cells: &Vec<u8>) -> (r: Vec<usize>)
    ensures
        forall|k: int| 0 <= k < r@.len() ==> #[trigger] r@[k] < cells@.len() && cells@[r@[k] as int] != DOT,
        forall|i: int| 0 <= i < cells@.len() && cells@[i] != DOT ==> exists|k: int| 0 <= k < r@.len() && #[trigger] r@[k] == i,
{
    let mut r: Vec<usize> = Vec::new();
    let mut i: usize = 0;
    while i < cells.len()
        invariant
            i <= cells@.len(),
            forall|k: int| 0 <= k < r@.len() ==> #[trigger] r@[k] < cells@.len() && cells@[r@[k] as int] != DOT,
            forall|j: int| 0 <= j < i && cells@[j] != DOT ==> exists|k: int| 0 <= k < r@.len() && #[trigger] r@[k] == j,
        decreases cells@.len() - i,
    {
        if cells[i] != DOT {
            let ghost before = r@;
            r.push(i);
            proof {
                assert(r@[before.len() as int] == i);
                assert forall|j: int| 0 <= j < i + 1 && cells@[j] != DOT implies exists|k: int| 0 <= k < r@.len() && #[trigger] r@[k] == j by {
                    if j < i {
                        let k = choose|k: int| 0 <= k < before.len() && before[k] == j;
                        assert(r@[k] == j);
                    }
                }
            }
        }
        i += 1;
    }
    r
}

fn antinode_test(p: usize, a: usize, b: usize, w: usize, h: usize, harmonics: bool) -> (r: bool)
    requires
        0 < w <= 0x8000_0000,
        h <= 0x8000_0000,
        p < w * h,
        a < w * h,
        b < w * h,
    ensures
        r == antinode_of(p as int, a as int, b as int, w as int, harmonics),
{
    proof {
        vstd::arithmetic::div_mod::lemma_div_is_ordered((p as int), (w * h) as int, w as int);
        vstd::arithmetic::div_mod::lemma_div_is_ordered((a as int), (w * h) as int, w as int);
        vstd::arithmetic::div_mod::lemma_div_is_ordered((b as int), (w * h) as int, w as int);
        vstd::arithmetic::div_mod::lemma_div_multiples_vanish(h as int, w as int);
        assert((w * h) as int == (w as int) * (h as int));
    }
    let (px, py) = ((p % w) as i128, (p / w) as i128);
    let (ax, ay) = ((a % w) as i128, (a / w) as i128);
    let (bx, by) = ((b % w) as i128, (b / w) as i128);
    if harmonics {
        assert(-0x4000_0000_0000_0000i128 <= (px - ax) * (by - ay) <= 0x4000_0000_0000_0000i128) by (nonlinear_arith)
            requires
                -0x8000_0000i128 <= px - ax <= 0x8000_0000i128,
                -0x8000_0000i128 <= by - ay <= 0x8000_0000i128,
        ;
        assert(-0x4000_0000_0000_0000i128 <= (py - ay) * (bx - ax) <= 0x4000_0000_0000_0000i128) by (nonlinear_arith)
            requires
                -0x8000_0000i128 <= py - ay <= 0x8000_0000i128,
                -0x8000_0000i128 <= bx - ax <= 0x8000_0000i128,
        ;
        (px - ax) * (by - ay) == (py - ay) * (bx - ax)
    } else {
        px == 2 * ax - bx && py == 2 * ay - by
    }
}

/// The map has fewer than 2^31 columns and rows.
pub open spec fn map_small(text: Seq<u8>) -> bool {
    let (cells, w, h) = text_grid(text)->0;
    text_grid(text) is Some && w <= 0x8000_0000 && h <= 0x8000_0000
}

/// The tiles that are antinodes of some pair of antennas of one frequency on the map in
/// `input`; `None` where its rows differ in length or a side reaches 2^31.
pub fn count_antinodes(input: &str, harmonics: bool) -> (r: Option<usize>)
    ensures
        usize_answer(r, map_small(input.spec_bytes()), map_antinodes(input.spec_bytes(), harmonics)),
{
    let (cells, w, h) = match read_grid(input.as_bytes()) {
        Some(g) => g,
        None => return None,
    };
    if w > 0x8000_0000 || h > 0x8000_0000 {
        return None;
    }
    let n = cells.len();
    if n == 0 {
        return Some(0);
    }
    assert(w > 0) by (nonlinear_arith)
        requires
            cells@.len() == w * h,
            cells@.len() > 0,
    ;
    let ants = antennas(&cells);
    let mut count: usize = 0;
    let mut p: usize = 0;
    while p < n
        invariant
            n == cells@.len(),
            n == w * h,
            0 < w <= 0x8000_0000,
            h <= 0x8000_0000,
            text_grid(input.spec_bytes()) == Some((cells@, w as int, h as int)),
            forall|k: int| 0 <= k < ants@.len() ==> #[trigger] ants@[k] < cells@.len() && cells@[ants@[k] as int] != DOT,
            forall|i: int| 0 <= i < cells@.len() && cells@[i] != DOT ==> exists|k: int| 0 <= k < ants@.len() && #[trigger] ants@[k] == i,
            p <= n,
            count <= p,
            count as nat == antinodes(cells@, w as int, p as int, harmonics),
        decreases n - p,
    {
        let mut found = false;
        let mut i: usize = 0;
        while i < ants.len() && !found
            invariant
                n == cells@.len(),
                n == w * h,
                0 < w <= 0x8000_0000,
                h <= 0x8000_0000,
                p < n,
                forall|k: int| 0 <= k < ants@.len() ==> #[trigger] ants@[k] < cells@.len() && cells@[ants@[k] as int] != DOT,
                forall|i: int| 0 <= i < cells@.len() && cells@[i] != DOT ==> exists|k: int| 0 <= k < ants@.len() && #[trigger] ants@[k] == i,
                i <= ants@.len(),
                found ==> is_antinode(cells@, w as int, p as int, harmonics),
                !found ==> forall|x: int, b: int| 0 <= x < i && #[trigger] pair(cells@, ants@[x] as int, b) ==> !antinode_of(p as int, ants@[x] as int, b, w as int, harmonics),
            decreases ants@.len() - i + if found { 0int } else { 1int },
        {
            let a = ants[i];
            let mut j: usize = 0;
            while j < ants.len() && !found
                invariant
                    n == cells@.len(),
                    n == w * h,
                    0 < w <= 0x8000_0000,
                    h <= 0x8000_0000,
                    p < n,
                    forall|k: int| 0 <= k < ants@.len() ==> #[trigger] ants@[k] < cells@.len() && cells@[ants@[k] as int] != DOT,
                    i < ants@.len(),
                    a == ants@[i as int],
                    j <= ants@.len(),
                    found ==> is_antinode(cells@, w as int, p as int, harmonics),
                    !found ==> forall|x: int, b: int| 0 <= x < i && #[trigger] pair(cells@, ants@[x] as int, b) ==> !antinode_of(p as int, ants@[x] as int, b, w as int, harmonics),
                    !found ==> forall|y: int| 0 <= y < j && #[trigger] pair(cells@, a as int, ants@[y] as int) ==> !antinode_of(p as int, a as int, ants@[y] as int, w as int, harmonics),
                decreases ants@.len() - j + if found { 0int } else { 1int },
            {
                let b = ants[j];
                if a != b && cells[a] == cells[b] && antinode_test(p, a, b, w, h, harmonics) {
                    assert(pair(cells@, a as int, b as int));
                    found = true;
                } else {
                    j += 1;
                }
            }
            if !found {
                proof {
                    assert forall|x: int, b: int| 0 <= x < i + 1 && #[trigger] pair(cells@, ants@[x] as int, b) implies !antinode_of(p as int, ants@[x] as int, b, w as int, harmonics) by {
                        if x == i {
                            let y = choose|y: int| 0 <= y < ants@.len() && #[trigger] ants@[y] == b;
                            assert(pair(cells@, a as int, ants@[y] as int));
                        }
                    }
                }
                i += 1;
            }
        }
        proof {
            if !found {
                assert(!is_antinode(cells@, w as int, p as int, harmonics)) by {
                    if is_antinode(cells@, w as int, p as int, harmonics) {
                        let (a, b) = choose|a: int, b: int| #[trigger] pair(cells@, a, b) && antinode_of(p as int, a, b, w as int, harmonics);
                        let x = choose|x: int| 0 <= x < ants@.len() && #[trigger] ants@[x] == a;
                        assert(pair(cells@, ants@[x] as int, b));
                    }
                }
            }
        }
        if found {
            count += 1;
        }
        p += 1;
    }
    Some(count)
}

/// How many tiles hold an antinode of a pair of antennas of one frequency.
pub fn part_one(input: &str) -> (r: Option<u32>)
    ensures
        crate::text::u32_answer(r, map_small(input.spec_bytes()), map_antinodes(input.spec_bytes(), false)),
{
    match count_antinodes(input, false) {
        Some(c) => if c <= u32::MAX as usize {
            Some(c as u32)
        } else {
            None
        },
        None => None,
    }
}

/// How many tiles lie in line with a pair of antennas of one frequency.
pub fn part_two(input: &str) -> (r: Option<u32>)
    ensures
        crate::text::u32_answer(r, map_small(input.spec_bytes()), map_antinodes(input.spec_bytes(), true)),
{
    match count_antinodes(input, true) {
        Some(c) => if c <= u32::MAX as usize {
            Some(c as u32)
        } else {
            None
        },
        None => None,
    }
}

} // verus!
