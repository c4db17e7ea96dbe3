//! A guard walks a lab map: straight ahead until an obstruction is in front, then a
//! right turn, until leaving the map. The first part counts the tiles the guard
//! visits; the second counts the tiles where one new obstruction keeps the guard on
//! the map for good.
use vstd::prelude::*;
use crate::grid::{neighbour, neighbour_at, read_grid, text_grid};
use crate::day16::{find_first, first_index};
use vstd::string::StringSliceAdditionalSpecFns;

verus! {

pub const WALL: u8 = 35;
pub const GUARD: u8 = 94;
pub const FLOOR: u8 = 46;
/// Facing up, in the numbering of `grid::neighbour`.
pub const UP: u64 = 0;

/// The direction after a right turn: up, right, down, left in turn.
pub open spec fn turn_right(d: int) -> int {
    if d == 0 {
        3
    } else if d == 3 {
        1
    } else if d == 1 {
        2
    } else {
        0
    }
}

/// One move of the guard at tile `i` facing `d`, with an extra obstruction at `extra`;
/// `None` where the guard walks off the map.
pub open spec fn guard_step(cells: Seq<u8>, w: int, h: int, extra: int, i: int, d: int) -> Option<(int, int)> {
    match neighbour(w, h, i, d) {
        None => None,
        Some(j) => if cells[j] == WALL || j == extra {
            Some((i, turn_right(d)))
        } else {
            Some((j, d))
        },
    }
}

/// Where the guard stands and faces after `t` moves from `start` facing up; `None`
/// once gone.
pub open spec fn guard_at(cells: Seq<u8>, w: int, h: int, extra: int, start: int, t: nat) -> Option<(int, int)>
    decreases t,
{
    if t == 0 {
        Some((start, 0))
    } else {
        match guard_at(cells, w, h, extra, start, (t - 1) as nat) {
            None => None,
            Some((i, d)) => guard_step(cells, w, h, extra, i, d),
        }
    }
}

/// The guard stands on tile `c`.
pub open spec fn stands_on(s: Option<(int, int)>, c: int) -> bool {
    match s {
        Some((i, _d)) => i == c,
        None => false,
    }
}

/// Tile `c` is stood on at some move before `t`.
pub open spec fn visited_before(cells: Seq<u8>, w: int, h: int, start: int, c: int, t: nat) -> bool {
    exists|k: nat| k < t && stands_on(#[trigger] guard_at(cells, w, h, -1, start, k), c)
}

/// The tiles among the first `m` stood on before move `t`.
pub open spec fn visited_count(cells: Seq<u8>, w: int, h: int, start: int, t: nat, m: int) -> nat
    decreases m,
{
    if m <= 0 {
        0
    } else {
        visited_count(cells, w, h, start, t, m - 1) + if visited_before(cells, w, h, start, m - 1, t) {
            1nat
        } else {
            0nat
        }
    }
}

/// The guard is still on the map after as many moves as there are standing states.
pub open spec fn stays(cells: Seq<u8>, w: int, h: int, extra: int, start: int) -> bool {
    guard_at(cells, w, h, extra, start, (4 * cells.len() + 1) as nat) is Some
}

/// Tiles among the first `m` where a new obstruction keeps the guard on the map.
pub open spec fn trap_count(cells: Seq<u8>, w: int, h: int, start: int, m: int) -> nat
    decreases m,
{
    if m <= 0 {
        0
    } else {
        trap_count(cells, w, h, start, m - 1) + if cells[m - 1] == FLOOR && stays(cells, w, h, m - 1, start) {
            1nat
        } else {
            0nat
        }
    }
}

pub open spec fn lab_cells(text: Seq<u8>) -> Seq<u8> {
    let (cells, w, h) = text_grid(text)->0;
    cells
}

pub open spec fn lab_width(text: Seq<u8>) -> int {
    let (cells, w, h) = text_grid(text)->0;
    w
}

pub open spec fn lab_height(text: Seq<u8>) -> int {
    let (cells, w, h) = text_grid(text)->0;
    h
}

pub open spec fn lab_start(text: Seq<u8>) -> int {
    first_index(lab_cells(text), GUARD, 0)
}

/// The map is a grid with a guard on it, small enough to count its states.
pub open spec fn lab_valid(text: Seq<u8>) -> bool {
    &&& text_grid(text) is Some
    &&& lab_start(text) < lab_cells(text).len()
    &&& 4 * lab_cells(text).len() + 4 <= u64::MAX
    &&& 4 * lab_cells(text).len() + 4 <= usize::MAX
}

fn turn(d: usize) -> (r: usize)
    ensures
        r == turn_right(d as int),
        r < 4,
{
    if d == 0 {
        3
    } else if d == 3 {
        1
    } else if d == 1 {
        2
    } else {
        0
    }
}

/// One move of the guard.
fn step(cells: &Vec<u8>, w: usize, h: usize, extra: Option<usize>, i: usize, d: usize) -> (r: Option<(usize, usize)>)
    requires
        w > 0,
        i < w * h,
        cells@.len() == w * h,
        d < 4,
    ensures
        match r {
            Some((j, e)) => guard_step(cells@, w as int, h as int, match extra { Some(x) => x as int, None => -1 }, i as int, d as int)
                == Some((j as int, e as int)) && j < w * h && e < 4,
            None => guard_step(cells@, w as int, h as int, match extra { Some(x) => x as int, None => -1 }, i as int, d as int) is None,
        },
{
    let _n = cells.len();
    match neighbour_at(w, h, i, d) {
        None => None,
        Some(j) => {
            let blocked = cells[j] == WALL || match extra {
                Some(x) => j == x,
                None => false,
            };
            if blocked {
                Some((i, turn(d)))
            } else {
                Some((j, d))
            }
        },
    }
}

/// Whether the guard, with an extra obstruction at `extra`, is still on the map after
/// `fuel` moves.
fn still_on(cells: &Vec<u8>, w: usize, h: usize, extra: Option<usize>, start: usize, fuel: u64) -> (r: bool)
    requires
        w > 0,
        start < w * h,
        cells@.len() == w * h,
    ensures
        r == guard_at(cells@, w as int, h as int, match extra { Some(x) => x as int, None => -1 }, start as int, fuel as nat) is Some,
{
    let ghost ex = match extra {
        Some(x) => x as int,
        None => -1,
    };
    let (mut i, mut d): (usize, usize) = (start, 0);
    let mut t: u64 = 0;
    while t < fuel
        invariant
            w > 0,
            cells@.len() == w * h,
            i < w * h,
            d < 4,
            t <= fuel,
            ex == (match extra { Some(x) => x as int, None => -1 }),
            guard_at(cells@, w as int, h as int, ex, start as int, t as nat) == Some((i as int, d as int)),
        decreases fuel - t,
    {
        match step(cells, w, h, extra, i, d) {
            None => {
                proof {
                    lemma_gone_stays_gone(cells@, w as int, h as int, ex, start as int, (t + 1) as nat, fuel as nat);
                }
                return false;
            },
            Some((j, e)) => {
                i = j;
                d = e;
            },
        }
        t += 1;
    }
    true
}

proof fn lemma_gone_stays_gone(cells: Seq<u8>, w: int, h: int, extra: int, start: int, k: nat, n: nat)
    requires
        k <= n,
        guard_at(cells, w, h, extra, start, k) is None,
    ensures
        guard_at(cells, w, h, extra, start, n) is None,
    decreases n - k,
{
    if k < n {
        lemma_gone_stays_gone(cells, w, h, extra, start, k, (n - 1) as nat);
    }
}

/// The map in `input` with the guard's tile.
fn read_lab(input: &str) -> (r: Option<(Vec<u8>, usize, usize, usize)>)
    ensures
        match r {
            Some((cells, w, h, s)) => {
                &&& lab_valid(input.spec_bytes())
                &&& text_grid(input.spec_bytes()) == Some((cells@, w as int, h as int))
                &&& s as int == lab_start(input.spec_bytes())
                &&& w > 0
                &&& cells@.len() == w * h
                &&& s < cells@.len()
            },
            None => !lab_valid(input.spec_bytes()),
        },
{
    let (cells, w, h) = match read_grid(input.as_bytes()) {
        Some(g) => g,
        None => return None,
    };
    let n = cells.len();
    if n > (usize::MAX - 4) / 4 || n as u64 > (u64::MAX - 4) / 4 {
        return None;
    }
    let s = find_first(&cells, GUARD);
    if s >= n {
        return None;
    }
    assert(w > 0) by (nonlinear_arith)
        requires
            cells@.len() == w * h,
            cells@.len() > 0,
    ;
    Some((cells, w, h, s))
}

/// How many tiles the guard on the map in `input` visits before walking off it; `None`
/// where the map has no guard or the guard never leaves.
pub fn part_one(input: &str) -> (r: Option<u32>)
    ensures
        match r {
            Some(v) => lab_valid(input.spec_bytes()) && exists|t: nat|
                t <= 4 * lab_cells(input.spec_bytes()).len() + 1 && #[trigger] guard_at(
                    lab_cells(input.spec_bytes()),
                    lab_width(input.spec_bytes()),
                    lab_height(input.spec_bytes()),
                    -1,
                    lab_start(input.spec_bytes()),
                    t,
                ) is None && v as nat == visited_count(
                    lab_cells(input.spec_bytes()),
                    lab_width(input.spec_bytes()),
                    lab_height(input.spec_bytes()),
                    lab_start(input.spec_bytes()),
                    t,
                    lab_cells(input.spec_bytes()).len() as int,
                ),
            None => !lab_valid(input.spec_bytes()) || stays(
                lab_cells(input.spec_bytes()),
                lab_width(input.spec_bytes()),
                lab_height(input.spec_bytes()),
                -1,
                lab_start(input.spec_bytes()),
            ) || visited_count(
                lab_cells(input.spec_bytes()),
                lab_width(input.spec_bytes()),
                lab_height(input.spec_bytes()),
                lab_start(input.spec_bytes()),
                (4 * lab_cells(input.spec_bytes()).len() + 1) as nat,
                lab_cells(input.spec_bytes()).len() as int,
            ) > u32::MAX,
        },
{
    let (cells, w, h, start) = match read_lab(input) {
        Some(l) => l,
        None => return None,
    };
    let ghost (cv, wi, hi, si) = (cells@, w as int, h as int, start as int);
    let n = cells.len();
    let fuel: u64 = 4 * (n as u64) + 1;
    let mut marks: Vec<bool> = Vec::new();
    while marks.len() < n
        invariant
            marks@.len() <= n,
            forall|c: int| 0 <= c < marks@.len() ==> !(#[trigger] marks@[c]),
        decreases n - marks@.len(),
    {
        marks.push(false);
    }
    let (mut i, mut d): (usize, usize) = (start, 0);
    let mut t: u64 = 0;
    while t < fuel
        invariant
            w > 0,
            n == cells@.len(),
            cv == cells@,
            wi == w,
            hi == h,
            si == start,
            n == w * h,
            fuel == 4 * n + 1,
            lab_valid(input.spec_bytes()),
            lab_cells(input.spec_bytes()) == cv,
            lab_width(input.spec_bytes()) == wi,
            lab_height(input.spec_bytes()) == hi,
            lab_start(input.spec_bytes()) == si,
            marks@.len() == n,
            i < n,
            d < 4,
            t <= fuel,
            guard_at(cv, wi, hi, -1, si, t as nat) == Some((i as int, d as int)),
            forall|c: int| 0 <= c < n ==> (#[trigger] marks@[c] <==> visited_before(cv, wi, hi, si, c, t as nat)),
        decreases fuel - t,
    {
        let ghost before = marks@;
        marks.set(i, true);
        proof {
            assert forall|c: int| 0 <= c < n implies (#[trigger] marks@[c] <==> visited_before(cv, wi, hi, si, c, (t + 1) as nat)) by {
                if c == i {
                    assert(stands_on(guard_at(cv, wi, hi, -1, si, t as nat), c));
                } else {
                    if visited_before(cv, wi, hi, si, c, (t + 1) as nat) {
                        let k = choose|k: nat| k < t + 1 && stands_on(#[trigger] guard_at(cv, wi, hi, -1, si, k), c);
                        if k == t {
                            assert(false);
                        }
                        assert(visited_before(cv, wi, hi, si, c, t as nat));
                    }
                    if visited_before(cv, wi, hi, si, c, t as nat) {
                        let k = choose|k: nat| k < t && stands_on(#[trigger] guard_at(cv, wi, hi, -1, si, k), c);
                        assert(k < t + 1);
                    }
                }
            }
        }
        match step(&cells, w, h, None, i, d) {
            None => {
                let ghost gone = (t + 1) as nat;
                assert(guard_at(cv, wi, hi, -1, si, gone) is None);
                let mut count: u32 = 0;
                let mut c: usize = 0;
                while c < n
                    invariant
                        n == cells@.len(),
                        cv == cells@,
                        gone <= 4 * n + 1,
                        lab_valid(input.spec_bytes()),
                        lab_cells(input.spec_bytes()) == cv,
                        lab_width(input.spec_bytes()) == wi,
                        lab_height(input.spec_bytes()) == hi,
                        lab_start(input.spec_bytes()) == si,
                        marks@.len() == n,
                        c <= n,
                        forall|q: int| 0 <= q < n ==> (#[trigger] marks@[q] <==> visited_before(cv, wi, hi, si, q, gone)),
                        count as nat == visited_count(cv, wi, hi, si, gone, c as int),
                        count <= c,
                    decreases n - c,
                {
                    if marks[c] {
                        if count == u32::MAX {
                            proof {
                                lemma_visits_mono(cv, wi, hi, si, gone, (4 * n + 1) as nat, c as int + 1);
                                lemma_count_mono(cv, wi, hi, si, (4 * n + 1) as nat, c as int + 1, n as int);
                            }
                            return None;
                        }
                        count += 1;
                    }
                    c += 1;
                }
                assert(guard_at(cv, wi, hi, -1, si, gone) is None && count as nat == visited_count(cv, wi, hi, si, gone, n as int));
                return Some(count);
            },
            Some((j, e)) => {
                i = j;
                d = e;
            },
        }
        t += 1;
    }
    None
}

proof fn lemma_count_mono(cells: Seq<u8>, w: int, h: int, start: int, t: nat, k: int, m: int)
    requires
        k <= m,
    ensures
        visited_count(cells, w, h, start, t, k) <= visited_count(cells, w, h, start, t, m),
    decreases m - k,
{
    if k < m {
        lemma_count_mono(cells, w, h, start, t, k, m - 1);
    }
}

/// Counting over a later move counts at least as many tiles.
proof fn lemma_visits_mono(cells: Seq<u8>, w: int, h: int, start: int, t1: nat, t2: nat, m: int)
    requires
        t1 <= t2,
    ensures
        visited_count(cells, w, h, start, t1, m) <= visited_count(cells, w, h, start, t2, m),
    decreases m,
{
    if m > 0 {
        lemma_visits_mono(cells, w, h, start, t1, t2, m - 1);
        if visited_before(cells, w, h, start, m - 1, t1) {
            let k = choose|k: nat| k < t1 && stands_on(#[trigger] guard_at(cells, w, h, -1, start, k), m - 1);
            assert(k < t2);
        }
    }
}

/// How many floor tiles would, holding one new obstruction, keep the guard on the map
/// in `input`; `None` where the map has no guard.
pub fn part_two(input: &str) -> (r: Option<u32>)
    ensures
        match r {
            Some(v) => lab_valid(input.spec_bytes()) && v as nat == trap_count(
                lab_cells(input.spec_bytes()),
                lab_width(input.spec_bytes()),
                lab_height(input.spec_bytes()),
                lab_start(input.spec_bytes()),
                lab_cells(input.spec_bytes()).len() as int,
            ),
            None => !lab_valid(input.spec_bytes()) || trap_count(
                lab_cells(input.spec_bytes()),
                lab_width(input.spec_bytes()),
                lab_height(input.spec_bytes()),
                lab_start(input.spec_bytes()),
                lab_cells(input.spec_bytes()).len() as int,
            ) > u32::MAX,
        },
{
    let (cells, w, h, start) = match read_lab(input) {
        Some(l) => l,
        None => return None,
    };
    let ghost (cv, wi, hi, si) = (cells@, w as int, h as int, start as int);
    let n = cells.len();
    let fuel: u64 = 4 * (n as u64) + 1;
    let mut count: u32 = 0;
    let mut c: usize = 0;
    while c < n
        invariant
            w > 0,
            n == cells@.len(),
            cv == cells@,
            wi == w,
            hi == h,
            si == start,
            start < n,
            n == w * h,
            fuel == 4 * n + 1,
            lab_valid(input.spec_bytes()),
            lab_cells(input.spec_bytes()) == cv,
            lab_width(input.spec_bytes()) == wi,
            lab_height(input.spec_bytes()) == hi,
            lab_start(input.spec_bytes()) == si,
            c <= n,
            count as nat == trap_count(cv, wi, hi, si, c as int),
        decreases n - c,
    {
        if cells[c] == FLOOR && still_on(&cells, w, h, Some(c), start, fuel) {
            if count == u32::MAX {
                proof {
                    lemma_traps_mono(cv, wi, hi, si, c as int + 1, n as int);
                }
                return None;
            }
            count += 1;
        }
        c += 1;
    }
    Some(count)
}

proof fn lemma_traps_mono(cells: Seq<u8>, w: int, h: int, start: int, k: int, m: int)
    requires
        k <= m,
    ensures
        trap_count(cells, w, h, start, k) <= trap_count(cells, w, h, start, m),
    decreases m - k,
{
    if k < m {
        lemma_traps_mono(cells, w, h, start, k, m - 1);
    }
}

} // verus!
