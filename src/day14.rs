//! Robots on a wrapping grid, each with a position and a velocity per second. After
//! 100 seconds the safety factor multiplies the robot counts of the four quadrants;
//! the picture appears at the first second where no two robots share a tile.
use vstd::prelude::*;
use crate::text::{is_digit, lines, split_lines, views};
use vstd::string::StringSliceAdditionalSpecFns;

verus! {

pub const MINUS: u8 = 45;

/// The signed numbers read, and the one under way (its sign and size), after the
/// first `n` bytes of `s`; a `-` right before a digit makes the number negative.
/// `None` once a size exceeds 2^62.
pub open spec fn scan_signed(s: Seq<u8>, n: int) -> Option<(Seq<int>, Option<(bool, nat)>)>
    decreases n,
{
    if n <= 0 {
        Some((seq![], None))
    } else {
        match scan_signed(s, n - 1) {
            None => None,
            Some((done, cur)) => {
                let b = s[n - 1];
                if is_digit(b) {
                    let (neg, m) = match cur {
                        Some((neg, m)) => (neg, m),
                        None => (n >= 2 && s[n - 2] == MINUS, 0nat),
                    };
                    let next = m * 10 + (b - 48) as nat;
                    if next > 0x4000_0000_0000_0000 {
                        None
                    } else {
                        Some((done, Some((neg, next))))
                    }
                } else {
                    match cur {
                        Some((neg, m)) => Some((done.push(if neg { -(m as int) } else { m as int }), None)),
                        None => Some((done, None)),
                    }
                }
            },
        }
    }
}

/// The signed numbers written in `s`.
pub open spec fn parse_signed(s: Seq<u8>) -> Option<Seq<int>> {
    match scan_signed(s, s.len() as int) {
        None => None,
        Some((done, cur)) => Some(
            match cur {
                Some((neg, m)) => done.push(if neg { -(m as int) } else { m as int }),
                None => done,
            },
        ),
    }
}

fn signed_numbers(s: &[u8]) -> (r: Option<Vec<i64>>)
    ensures
        match r {
            Some(v) => parse_signed(s@) is Some && v@.len() == parse_signed(s@)->0.len() && forall|i: int|
                0 <= i < v@.len() ==> #[trigger] v@[i] as int == parse_signed(s@)->0[i],
            None => parse_signed(s@) is None,
        },
{
    let mut done: Vec<i64> = Vec::new();
    let mut cur: Option<(bool, u64)> = None;
    let mut i: usize = 0;
    while i < s.len()
        invariant
            i <= s@.len(),
            scan_signed(s@, i as int) matches Some((d, c)) && d.len() == done@.len() && (forall|k: int|
                0 <= k < d.len() ==> #[trigger] done@[k] as int == d[k]) && match c {
                Some((neg, m)) => cur == Some((neg, m as u64)) && m <= 0x4000_0000_0000_0000,
                None => cur is None,
            },
        decreases s@.len() - i,
    {
        let b = s[i];
        if 48 <= b && b <= 57 {
            let (neg, m) = match cur {
                Some((neg, m)) => (neg, m),
                None => (i >= 1 && s[i - 1] == MINUS, 0u64),
            };
            let next = (m as u128) * 10 + (b - 48) as u128;
            if next > 0x4000_0000_0000_0000 {
                proof {
                    lemma_signed_stays_none(s@, i + 1, s@.len() as int);
                }
                return None;
            }
            cur = Some((neg, next as u64));
        } else {
            match cur {
                Some((neg, m)) => {
                    let v: i64 = if neg {
                        -(m as i64)
                    } else {
                        m as i64
                    };
                    done.push(v);
                    cur = None;
                },
                None => {},
            }
        }
        i += 1;
    }
    match cur {
        Some((neg, m)) => {
            let v: i64 = if neg {
                -(m as i64)
            } else {
                m as i64
            };
            done.push(v);
        },
        None => {},
    }
    Some(done)
}

proof fn lemma_signed_stays_none(s: Seq<u8>, k: int, n: int)
    requires
        1 <= k <= n,
        scan_signed(s, k) is None,
    ensures
        scan_signed(s, n) is None,
    decreases n - k,
{
    if k < n {
        lemma_signed_stays_none(s, k, n - 1);
    }
}

/// The robots in `text`: each line gives a position and a velocity, four numbers.
pub open spec fn robots_valid(text: Seq<u8>) -> bool {
    forall|i: int| 0 <= i < split_lines(text).len() ==> #[trigger] parse_signed(split_lines(text)[i]) is Some
        && parse_signed(split_lines(text)[i])->0.len() == 4
}

/// Number `k` of robot `i`: x, y, x velocity, y velocity.
pub open spec fn robot_value(text: Seq<u8>, i: int, k: int) -> int {
    parse_signed(split_lines(text)[i])->0[k]
}

pub open spec fn robot_count(text: Seq<u8>) -> int {
    split_lines(text).len() as int
}

/// A coordinate after `t` seconds of moving by `v` per second on a ring of `size`.
pub open spec fn coord(p: int, v: int, size: int, t: nat) -> int
    decreases t,
{
    if t == 0 {
        p % size
    } else {
        (coord(p, v, size, (t - 1) as nat) + v) % size
    }
}

pub open spec fn robot_x(text: Seq<u8>, i: int, w: int, t: nat) -> int {
    coord(robot_value(text, i, 0), robot_value(text, i, 2), w, t)
}

pub open spec fn robot_y(text: Seq<u8>, i: int, h: int, t: nat) -> int {
    coord(robot_value(text, i, 1), robot_value(text, i, 3), h, t)
}

/// Robot `i` stands in quadrant `q` (0 top left, 1 top right, 2 bottom left, 3 bottom
/// right) after `t` seconds; the middle row and column belong to none.
pub open spec fn in_quadrant(text: Seq<u8>, i: int, w: int, h: int, t: nat, q: int) -> bool {
    let x = robot_x(text, i, w, t);
    let y = robot_y(text, i, h, t);
    let left = x < w / 2;
    let right = x >= w / 2 + 1;
    let top = y < h / 2;
    let bottom = y >= h / 2 + 1;
    if q == 0 {
        left && top
    } else if q == 1 {
        right && top
    } else if q == 2 {
        left && bottom
    } else {
        right && bottom
    }
}

/// The robots among the first `n` in quadrant `q` after `t` seconds.
pub open spec fn quadrant_count(text: Seq<u8>, n: int, w: int, h: int, t: nat, q: int) -> nat
    decreases n,
{
    if n <= 0 {
        0
    } else {
        quadrant_count(text, n - 1, w, h, t, q) + if in_quadrant(text, n - 1, w, h, t, q) {
            1nat
        } else {
            0nat
        }
    }
}

pub open spec fn safety(text: Seq<u8>, w: int, h: int, t: nat) -> nat {
    let n = robot_count(text);
    quadrant_count(text, n, w, h, t, 0) * quadrant_count(text, n, w, h, t, 1) * quadrant_count(text, n, w, h, t, 2)
        * quadrant_count(text, n, w, h, t, 3)
}

/// No two robots share a tile after `t` seconds.
pub open spec fn apart(text: Seq<u8>, w: int, h: int, t: nat) -> bool {
    forall|i: int, j: int|
        0 <= i < j < robot_count(text) ==> #[trigger] robot_x(text, i, w, t) != #[trigger] robot_x(text, j, w, t)
            || robot_y(text, i, h, t) != robot_y(text, j, h, t)
}

/// `a` taken round a ring of `size`.
fn wrap(a: i128, size: i128) -> (r: i128)
    requires
        size > 0,
        -0x1_0000_0000_0000_0000_0000 <= a <= 0x1_0000_0000_0000_0000_0000,
    ensures
        r == a % size,
        0 <= r < size,
{
    if a >= 0 {
        let r = ((a as u128) % (size as u128)) as i128;
        r
    } else {
        let b = (-a) as u128;
        let m = b % (size as u128);
        proof {
            let q = (b / (size as u128)) as int;
            vstd::arithmetic::div_mod::lemma_fundamental_div_mod(b as int, size as int);
            assert(b as int == (size as int) * q + m as int);
            if m == 0 {
                assert(a as int == (-q) * (size as int) + 0) by (nonlinear_arith)
                    requires
                        b as int == (size as int) * q + m as int,
                        m == 0,
                        a as int == -(b as int),
                ;
                vstd::arithmetic::div_mod::lemma_fundamental_div_mod_converse(a as int, size as int, -q, 0);
            } else {
                assert(a as int == (-q - 1) * (size as int) + (size - m) as int) by (nonlinear_arith)
                    requires
                        b as int == (size as int) * q + m as int,
                        a as int == -(b as int),
                ;
                vstd::arithmetic::div_mod::lemma_fundamental_div_mod_converse(a as int, size as int, -q - 1, (size - m) as int);
            }
        }
        if m == 0 {
            0
        } else {
            size - m as i128
        }
    }
}

fn read_robots(input: &str) -> (r: Option<Vec<(i64, i64, i64, i64)>>)
    ensures
        match r {
            Some(v) => robots_valid(input.spec_bytes()) && v@.len() == robot_count(input.spec_bytes()) && forall|i: int|
                0 <= i < v@.len() ==> {
                    &&& (#[trigger] v@[i]).0 as int == robot_value(input.spec_bytes(), i, 0)
                    &&& v@[i].1 as int == robot_value(input.spec_bytes(), i, 1)
                    &&& v@[i].2 as int == robot_value(input.spec_bytes(), i, 2)
                    &&& v@[i].3 as int == robot_value(input.spec_bytes(), i, 3)
                },
            None => !robots_valid(input.spec_bytes()),
        },
{
    let ls = lines(input.as_bytes());
    let ghost lv = views(ls@);
    let ghost text = input.spec_bytes();
    let mut out: Vec<(i64, i64, i64, i64)> = Vec::new();
    let mut i: usize = 0;
    while i < ls.len()
        invariant
            lv == views(ls@),
            lv == split_lines(text),
            text == input.spec_bytes(),
            i <= lv.len(),
            out@.len() == i,
            forall|j: int| 0 <= j < i ==> #[trigger] parse_signed(lv[j]) is Some && parse_signed(lv[j])->0.len() == 4,
            forall|j: int|
                0 <= j < i ==> {
                    &&& (#[trigger] out@[j]).0 as int == robot_value(text, j, 0)
                    &&& out@[j].1 as int == robot_value(text, j, 1)
                    &&& out@[j].2 as int == robot_value(text, j, 2)
                    &&& out@[j].3 as int == robot_value(text, j, 3)
                },
        decreases lv.len() - i,
    {
        assert(ls@[i as int]@ == lv[i as int]);
        let nums = match signed_numbers(ls[i].as_slice()) {
            Some(n) => n,
            None => return None,
        };
        if nums.len() != 4 {
            return None;
        }
        out.push((nums[0], nums[1], nums[2], nums[3]));
        i += 1;
    }
    Some(out)
}

/// Each robot's position after one more second.
fn tick(pos: &mut Vec<(i128, i128)>, robots: &Vec<(i64, i64, i64, i64)>, w: i128, h: i128, Ghost(text): Ghost<Seq<u8>>, Ghost(t): Ghost<nat>)
    requires
        w > 0,
        h > 0,
        old(pos)@.len() == robots@.len(),
        forall|i: int| 0 <= i < robots@.len() ==> (#[trigger] robots@[i]).2 as int == robot_value(text, i, 2) && robots@[i].3 as int == robot_value(text, i, 3),
        forall|i: int| 0 <= i < robots@.len() ==> (#[trigger] old(pos)@[i]).0 == robot_x(text, i, w as int, t) && old(pos)@[i].1 == robot_y(text, i, h as int, t),
        forall|i: int| 0 <= i < robots@.len() ==> 0 <= (#[trigger] old(pos)@[i]).0 < w && 0 <= old(pos)@[i].1 < h,
        w <= 0x1_0000_0000_0000_0000,
        h <= 0x1_0000_0000_0000_0000,
    ensures
        final(pos)@.len() == robots@.len(),
        forall|i: int| 0 <= i < robots@.len() ==> (#[trigger] final(pos)@[i]).0 == robot_x(text, i, w as int, t + 1) && final(pos)@[i].1 == robot_y(text, i, h as int, t + 1),
        forall|i: int| 0 <= i < robots@.len() ==> 0 <= (#[trigger] final(pos)@[i]).0 < w && 0 <= final(pos)@[i].1 < h,
{
    let mut k: usize = 0;
    while k < pos.len()
        invariant
            w > 0,
            h > 0,
            w <= 0x1_0000_0000_0000_0000,
            h <= 0x1_0000_0000_0000_0000,
            pos@.len() == robots@.len(),
            k <= pos@.len(),
            forall|i: int| 0 <= i < robots@.len() ==> (#[trigger] robots@[i]).2 as int == robot_value(text, i, 2) && robots@[i].3 as int == robot_value(text, i, 3),
            forall|i: int| k <= i < robots@.len() ==> (#[trigger] pos@[i]).0 == robot_x(text, i, w as int, t) && pos@[i].1 == robot_y(text, i, h as int, t),
            forall|i: int| 0 <= i < k ==> (#[trigger] pos@[i]).0 == robot_x(text, i, w as int, t + 1) && pos@[i].1 == robot_y(text, i, h as int, t + 1),
            forall|i: int| 0 <= i < robots@.len() ==> 0 <= (#[trigger] pos@[i]).0 < w && 0 <= pos@[i].1 < h,
        decreases pos@.len() - k,
    {
        let (x, y) = pos[k];
        let (_px, _py, vx, vy) = robots[k];
        let nx = wrap(x + vx as i128, w);
        let ny = wrap(y + vy as i128, h);
        pos.set(k, (nx, ny));
        k += 1;
    }
}

fn start_positions(robots: &Vec<(i64, i64, i64, i64)>, w: i128, h: i128, Ghost(text): Ghost<Seq<u8>>) -> (pos: Vec<(i128, i128)>)
    requires
        w > 0,
        h > 0,
        forall|i: int| 0 <= i < robots@.len() ==> (#[trigger] robots@[i]).0 as int == robot_value(text, i, 0) && robots@[i].1 as int == robot_value(text, i, 1),
    ensures
        pos@.len() == robots@.len(),
        forall|i: int| 0 <= i < robots@.len() ==> (#[trigger] pos@[i]).0 == robot_x(text, i, w as int, 0) && pos@[i].1 == robot_y(text, i, h as int, 0),
        forall|i: int| 0 <= i < robots@.len() ==> 0 <= (#[trigger] pos@[i]).0 < w && 0 <= pos@[i].1 < h,
{
    let mut pos: Vec<(i128, i128)> = Vec::new();
    let mut k: usize = 0;
    while k < robots.len()
        invariant
            w > 0,
            h > 0,
            k <= robots@.len(),
            pos@.len() == k,
            forall|i: int| 0 <= i < robots@.len() ==> (#[trigger] robots@[i]).0 as int == robot_value(text, i, 0) && robots@[i].1 as int == robot_value(text, i, 1),
            forall|i: int| 0 <= i < k ==> (#[trigger] pos@[i]).0 == robot_x(text, i, w as int, 0) && pos@[i].1 == robot_y(text, i, h as int, 0),
            forall|i: int| 0 <= i < k ==> 0 <= (#[trigger] pos@[i]).0 < w && 0 <= pos@[i].1 < h,
        decreases robots@.len() - k,
    {
        let (px, py, _vx, _vy) = robots[k];
        pos.push((wrap(px as i128, w), wrap(py as i128, h)));
        k += 1;
    }
    pos
}

proof fn lemma_cell_unique(x1: int, y1: int, x2: int, y2: int, w: int)
    requires
        0 <= x1 < w,
        0 <= x2 < w,
        y1 * w + x1 == y2 * w + x2,
    ensures
        x1 == x2 && y1 == y2,
{
    vstd::arithmetic::div_mod::lemma_fundamental_div_mod_converse(y1 * w + x1, w, y1, x1);
    vstd::arithmetic::div_mod::lemma_fundamental_div_mod_converse(y2 * w + x2, w, y2, x2);
}

proof fn lemma_quadrant_mono(text: Seq<u8>, k: int, n: int, w: int, h: int, t: nat, q: int)
    requires
        0 <= k <= n,
    ensures
        quadrant_count(text, k, w, h, t, q) <= k,
    decreases k,
{
    if k > 0 {
        lemma_quadrant_mono(text, k - 1, n, w, h, t, q);
    }
}

/// The robots' positions after `t` seconds.
fn positions_at(robots: &Vec<(i64, i64, i64, i64)>, w: i128, h: i128, t: u32, Ghost(text): Ghost<Seq<u8>>) -> (pos: Vec<(i128, i128)>)
    requires
        w > 0,
        h > 0,
        w <= 0x1_0000_0000_0000_0000,
        h <= 0x1_0000_0000_0000_0000,
        forall|i: int| 0 <= i < robots@.len() ==> {
            &&& (#[trigger] robots@[i]).0 as int == robot_value(text, i, 0)
            &&& robots@[i].1 as int == robot_value(text, i, 1)
            &&& robots@[i].2 as int == robot_value(text, i, 2)
            &&& robots@[i].3 as int == robot_value(text, i, 3)
        },
    ensures
        pos@.len() == robots@.len(),
        forall|i: int| 0 <= i < robots@.len() ==> (#[trigger] pos@[i]).0 == robot_x(text, i, w as int, t as nat) && pos@[i].1 == robot_y(text, i, h as int, t as nat),
        forall|i: int| 0 <= i < robots@.len() ==> 0 <= (#[trigger] pos@[i]).0 < w && 0 <= pos@[i].1 < h,
{
    let mut pos = start_positions(robots, w, h, Ghost(text));
    let mut k: u32 = 0;
    while k < t
        invariant
            w > 0,
            h > 0,
            w <= 0x1_0000_0000_0000_0000,
            h <= 0x1_0000_0000_0000_0000,
            k <= t,
            forall|i: int| 0 <= i < robots@.len() ==> {
                &&& (#[trigger] robots@[i]).0 as int == robot_value(text, i, 0)
                &&& robots@[i].1 as int == robot_value(text, i, 1)
                &&& robots@[i].2 as int == robot_value(text, i, 2)
                &&& robots@[i].3 as int == robot_value(text, i, 3)
            },
            pos@.len() == robots@.len(),
            forall|i: int| 0 <= i < robots@.len() ==> (#[trigger] pos@[i]).0 == robot_x(text, i, w as int, k as nat) && pos@[i].1 == robot_y(text, i, h as int, k as nat),
            forall|i: int| 0 <= i < robots@.len() ==> 0 <= (#[trigger] pos@[i]).0 < w && 0 <= pos@[i].1 < h,
        decreases t - k,
    {
        tick(&mut pos, robots, w, h, Ghost(text), Ghost(k as nat));
        k += 1;
    }
    pos
}

/// The safety factor after 100 seconds on a `grid_max_x` by `grid_max_y` grid: the
/// product of the robot counts of the four quadrants. `None` where a line does not
/// hold four numbers, the grid is empty or beyond 64 bits a side, or the product does
/// not fit in a `u32`.
pub fn solve_one(input: &str, grid_max_x: usize, grid_max_y: usize) -> (r: Option<u32>)
    ensures
        match r {
            Some(v) => robots_valid(input.spec_bytes()) && grid_max_x > 0 && grid_max_y > 0 && v as nat == safety(
                input.spec_bytes(),
                grid_max_x as int,
                grid_max_y as int,
                100,
            ),
            None => !robots_valid(input.spec_bytes()) || grid_max_x == 0 || grid_max_y == 0 || safety(
                input.spec_bytes(),
                grid_max_x as int,
                grid_max_y as int,
                100,
            ) > u32::MAX,
        },
{
    let robots = match read_robots(input) {
        Some(r) => r,
        None => return None,
    };
    if grid_max_x == 0 || grid_max_y == 0 {
        return None;
    }
    let ghost text = input.spec_bytes();
    let (w, h) = (grid_max_x as i128, grid_max_y as i128);
    let pos = positions_at(&robots, w, h, 100, Ghost(text));
    let mut counts: [u64; 4] = [0, 0, 0, 0];
    let mut k: usize = 0;
    let n = robots.len();
    while k < n
        invariant
            n == robot_count(text),
            pos@.len() == n,
            w == grid_max_x,
            h == grid_max_y,
            k <= n,
            forall|i: int| 0 <= i < n ==> (#[trigger] pos@[i]).0 == robot_x(text, i, w as int, 100) && pos@[i].1 == robot_y(text, i, h as int, 100),
            forall|q: int| 0 <= q < 4 ==> #[trigger] counts@[q] as nat == quadrant_count(text, k as int, w as int, h as int, 100, q),
            forall|q: int| 0 <= q < 4 ==> #[trigger] counts@[q] <= k,
        decreases n - k,
    {
        let (x, y) = pos[k];
        let left = x < w / 2;
        let right = x >= w / 2 + 1;
        let top = y < h / 2;
        let bottom = y >= h / 2 + 1;
        let q: usize = if left && top {
            0
        } else if right && top {
            1
        } else if left && bottom {
            2
        } else {
            3
        };
        if (left || right) && (top || bottom) {
            counts[q] = counts[q] + 1;
        }
        proof {
            assert forall|qq: int| 0 <= qq < 4 implies #[trigger] counts@[qq] as nat == quadrant_count(text, k + 1, w as int, h as int, 100, qq) by {}
        }
        k += 1;
    }
    let (c0, c1, c2, c3) = (counts[0] as u128, counts[1] as u128, counts[2] as u128, counts[3] as u128);
    assert(c0 * c1 <= 0xffff_ffff_ffff_ffff_ffff_ffff_ffff_ffffu128) by (nonlinear_arith)
        requires
            c0 <= 0xffff_ffff_ffff_ffffu128,
            c1 <= 0xffff_ffff_ffff_ffffu128,
    ;
    assert(c2 * c3 <= 0xffff_ffff_ffff_ffff_ffff_ffff_ffff_ffffu128) by (nonlinear_arith)
        requires
            c2 <= 0xffff_ffff_ffff_ffffu128,
            c3 <= 0xffff_ffff_ffff_ffffu128,
    ;
    let p01 = c0 * c1;
    let p23 = c2 * c3;
    proof {
        assert(safety(text, w as int, h as int, 100) == (c0 as nat) * (c1 as nat) * (c2 as nat) * (c3 as nat));
        assert((c0 as nat) * (c1 as nat) * (c2 as nat) * (c3 as nat) == (p01 as nat) * (p23 as nat)) by (nonlinear_arith)
            requires
                p01 as nat == (c0 as nat) * (c1 as nat),
                p23 as nat == (c2 as nat) * (c3 as nat),
        ;
    }
    let prod = match p01.checked_mul(p23) {
        Some(p) => p,
        None => return None,
    };
    if prod > u32::MAX as u128 {
        return None;
    }
    Some(prod as u32)
}

/// The safety factor on the 101 by 103 grid.
pub fn part_one(input: &str) -> (r: Option<u32>)
    ensures
        match r {
            Some(v) => robots_valid(input.spec_bytes()) && v as nat == safety(input.spec_bytes(), 101, 103, 100),
            None => !robots_valid(input.spec_bytes()) || safety(input.spec_bytes(), 101, 103, 100) > u32::MAX,
        },
{
    solve_one(input, 101, 103)
}

pub open spec fn tile(p: (i128, i128), w: int) -> int {
    p.1 * w + p.0
}

/// Whether no two robots share a tile; `seen` is all false before and after.
fn all_apart(pos: &Vec<(i128, i128)>, w: usize, h: usize, seen: &mut Vec<bool>, Ghost(text): Ghost<Seq<u8>>, Ghost(t): Ghost<nat>) -> (r: bool)
    requires
        w > 0,
        h > 0,
        old(seen)@.len() == w * h,
        forall|c: int| 0 <= c < old(seen)@.len() ==> !(#[trigger] old(seen)@[c]),
        pos@.len() == robot_count(text),
        forall|i: int| 0 <= i < pos@.len() ==> (#[trigger] pos@[i]).0 == robot_x(text, i, w as int, t) && pos@[i].1 == robot_y(text, i, h as int, t),
        forall|i: int| 0 <= i < pos@.len() ==> 0 <= (#[trigger] pos@[i]).0 < w && 0 <= pos@[i].1 < h,
    ensures
        r == apart(text, w as int, h as int, t),
        final(seen)@.len() == w * h,
        forall|c: int| 0 <= c < final(seen)@.len() ==> !(#[trigger] final(seen)@[c]),
{
    let n = pos.len();
    let total = seen.len();
    let mut k: usize = 0;
    let mut clash = false;
    while k < n && !clash
        invariant
            w > 0,
            h > 0,
            total == w * h,
            seen@.len() == total,
            n == pos@.len(),
            k <= n,
            forall|i: int| 0 <= i < n ==> 0 <= (#[trigger] pos@[i]).0 < w && 0 <= pos@[i].1 < h,
            forall|c: int| 0 <= c < total ==> (#[trigger] seen@[c] <==> exists|j: int| 0 <= j < k && tile(pos@[j], w as int) == c),
            forall|i: int, j: int| 0 <= i < j < k ==> tile(#[trigger] pos@[i], w as int) != tile(#[trigger] pos@[j], w as int),
            clash ==> exists|i: int, j: int| 0 <= i < j < n && pos@[i] == pos@[j],
            !clash ==> forall|i: int, j: int| 0 <= i < j < k ==> #[trigger] pos@[i] != #[trigger] pos@[j],
        decreases n - k + if clash { 0int } else { 1int },
    {
        let (x, y) = pos[k];
        proof {
            assert((y as int) * (w as int) + (x as int) < (w as int) * (h as int)) by (nonlinear_arith)
                requires
                    0 <= x < w,
                    0 <= y < h,
            ;
        }
        let c = (y as usize) * w + (x as usize);
        assert(c as int == tile(pos@[k as int], w as int));
        if seen[c] {
            proof {
                let j = choose|j: int| 0 <= j < k && tile(pos@[j], w as int) == c;
                lemma_cell_unique(pos@[j].0 as int, pos@[j].1 as int, x as int, y as int, w as int);
                assert(pos@[j] == pos@[k as int]);
            }
            clash = true;
        } else {
        seen.set(c, true);
        proof {
            assert forall|cc: int| 0 <= cc < total implies (#[trigger] seen@[cc] <==> exists|j: int| 0 <= j < k + 1 && tile(pos@[j], w as int) == cc) by {
                if cc == c {
                    assert(tile(pos@[k as int], w as int) == cc);
                }
            }
            assert forall|i: int, j: int| 0 <= i < j < k + 1 implies tile(#[trigger] pos@[i], w as int) != tile(#[trigger] pos@[j], w as int) by {
                if j == k {
                    if tile(pos@[i], w as int) == c {
                        assert(seen@[c as int]);
                    }
                }
            }
        }
        k += 1;
        }
    }
    // clear the tiles marked, robots 0..k
    let mut u: usize = 0;
    while u < k
        invariant
            w > 0,
            total == w * h,
            seen@.len() == total,
            n == pos@.len(),
            u <= k,
            k <= n,
            forall|i: int| 0 <= i < n ==> 0 <= (#[trigger] pos@[i]).0 < w && 0 <= pos@[i].1 < h,
            forall|c: int| 0 <= c < total ==> (#[trigger] seen@[c] <==> exists|j: int| u <= j < k && tile(pos@[j], w as int) == c),
            forall|i: int, j: int| 0 <= i < j < k ==> tile(#[trigger] pos@[i], w as int) != tile(#[trigger] pos@[j], w as int),
        decreases k - u,
    {
        let (x, y) = pos[u];
        proof {
            assert((y as int) * (w as int) + (x as int) < (w as int) * (h as int)) by (nonlinear_arith)
                requires
                    0 <= x < w,
                    0 <= y < h,
            ;
        }
        let c = (y as usize) * w + (x as usize);
        assert(c as int == tile(pos@[u as int], w as int));
        seen.set(c, false);
        proof {
            assert forall|cc: int| 0 <= cc < total implies (#[trigger] seen@[cc] <==> exists|j: int| u + 1 <= j < k && tile(pos@[j], w as int) == cc) by {
                if cc == c {
                    if exists|j: int| u + 1 <= j < k && tile(pos@[j], w as int) == cc {
                        let j = choose|j: int| u + 1 <= j < k && tile(pos@[j], w as int) == cc;
                        assert(tile(pos@[u as int], w as int) != tile(pos@[j], w as int));
                    }
                }
            }
        }
        u += 1;
    }
    proof {
        if !clash {
            assert(k == n);
            assert forall|i: int, j: int| 0 <= i < j < robot_count(text) implies #[trigger] robot_x(text, i, w as int, t) != #[trigger] robot_x(text, j, w as int, t)
                || robot_y(text, i, h as int, t) != robot_y(text, j, h as int, t) by {
                assert(pos@[i] != pos@[j]);
            }
        } else {
            let (i, j) = choose|i: int, j: int| 0 <= i < j < n && pos@[i] == pos@[j];
            assert(robot_x(text, i, w as int, t) == robot_x(text, j, w as int, t));
        }
    }
    !clash
}

/// The first second, below `grid_max_x * grid_max_y`, at which no two robots share a
/// tile; `None` where there is none, a line does not hold four numbers, or the grid is
/// empty or has more tiles than a `u32` counts.
pub fn solve_two(input: &str, grid_max_x: usize, grid_max_y: usize) -> (r: Option<u32>)
    ensures
        match r {
            Some(t) => robots_valid(input.spec_bytes()) && apart(input.spec_bytes(), grid_max_x as int, grid_max_y as int, t as nat)
                && forall|e: nat| e < t ==> !#[trigger] apart(input.spec_bytes(), grid_max_x as int, grid_max_y as int, e),
            None => !robots_valid(input.spec_bytes()) || grid_max_x == 0 || grid_max_y == 0 || grid_max_x * grid_max_y > u32::MAX
                || forall|e: nat| e < grid_max_x * grid_max_y ==> !#[trigger] apart(input.spec_bytes(), grid_max_x as int, grid_max_y as int, e),
        },
{
    let robots = match read_robots(input) {
        Some(r) => r,
        None => return None,
    };
    if grid_max_x == 0 || grid_max_y == 0 {
        return None;
    }
    if grid_max_x > u32::MAX as usize || grid_max_y > u32::MAX as usize {
        assert(grid_max_x * grid_max_y > u32::MAX) by (nonlinear_arith)
            requires
                grid_max_x >= 1,
                grid_max_y >= 1,
                grid_max_x > u32::MAX || grid_max_y > u32::MAX,
        ;
        return None;
    }
    let (w, h) = (grid_max_x, grid_max_y);
    assert((w as u64) * (h as u64) <= 0xffff_ffff_ffff_ffffu64) by (nonlinear_arith)
        requires
            w <= u32::MAX,
            h <= u32::MAX,
    ;
    if (w as u64) * (h as u64) > u32::MAX as u64 {
        return None;
    }
    let limit: u32 = ((w as u64) * (h as u64)) as u32;
    let cells = limit as usize;
    let ghost text = input.spec_bytes();
    let mut seen: Vec<bool> = Vec::new();
    while seen.len() < cells
        invariant
            cells == w * h,
            seen@.len() <= w * h,
            forall|c: int| 0 <= c < seen@.len() ==> !(#[trigger] seen@[c]),
        decreases cells - seen@.len(),
    {
        seen.push(false);
    }
    let mut pos = start_positions(&robots, w as i128, h as i128, Ghost(text));
    let mut t: u32 = 0;
    while t < limit
        invariant
            w > 0,
            h > 0,
            w <= u32::MAX,
            h <= u32::MAX,
            w == grid_max_x,
            h == grid_max_y,
            limit == w * h,
            robots@.len() == robot_count(text),
            forall|i: int| 0 <= i < robots@.len() ==> {
                &&& (#[trigger] robots@[i]).0 as int == robot_value(text, i, 0)
                &&& robots@[i].1 as int == robot_value(text, i, 1)
                &&& robots@[i].2 as int == robot_value(text, i, 2)
                &&& robots@[i].3 as int == robot_value(text, i, 3)
            },
            text == input.spec_bytes(),
            robots_valid(text),
            seen@.len() == w * h,
            forall|c: int| 0 <= c < seen@.len() ==> !(#[trigger] seen@[c]),
            pos@.len() == robots@.len(),
            forall|i: int| 0 <= i < robots@.len() ==> (#[trigger] pos@[i]).0 == robot_x(text, i, w as int, t as nat) && pos@[i].1 == robot_y(text, i, h as int, t as nat),
            forall|i: int| 0 <= i < robots@.len() ==> 0 <= (#[trigger] pos@[i]).0 < w && 0 <= pos@[i].1 < h,
            t <= limit,
            forall|e: nat| e < t ==> !#[trigger] apart(text, w as int, h as int, e),
        decreases limit - t,
    {
        if all_apart(&pos, w, h, &mut seen, Ghost(text), Ghost(t as nat)) {
            assert(apart(text, w as int, h as int, t as nat));
            assert(robots_valid(text));
            assert(forall|e: nat| e < t ==> !#[trigger] apart(text, w as int, h as int, e));
            return Some(t);
        }
        tick(&mut pos, &robots, w as i128, h as i128, Ghost(text), Ghost(t as nat));
        t += 1;
    }
    None
}

/// The first second at which no two robots share a tile of the 101 by 103 grid.
pub fn part_two(input: &str) -> (r: Option<u32>)
    ensures
        match r {
            Some(t) => robots_valid(input.spec_bytes()) && apart(input.spec_bytes(), 101, 103, t as nat)
                && forall|e: nat| e < t ==> !#[trigger] apart(input.spec_bytes(), 101, 103, e),
            None => !robots_valid(input.spec_bytes()) || forall|e: nat| e < 10403 ==> !#[trigger] apart(input.spec_bytes(), 101, 103, e),
        },
{
    solve_two(input, 101, 103)
}

} // verus!
