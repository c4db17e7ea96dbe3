//! A race track through walls, walked from start to end. A cheat leaves the track at
//! one tile and rejoins it at another within a budget of steps through walls; it saves
//! the track distance between the two less the steps it takes.
use vstd::prelude::*;
use crate::grid::{neighbour, neighbour_at, read_grid, text_grid};
use crate::paths::{edges_valid, shortest, shortest_distances, shortest_distances_unique, Edge, UNREACHED};
use crate::day16::{find_first, first_index, START, WALL};
use vstd::string::StringSliceAdditionalSpecFns;

verus! {

/// The steps from tile `i` to the track tile next to it in direction `d`, if that is
/// not a wall.
pub open spec fn track_moves(cells: Seq<u8>, w: int, h: int, i: int, d: int) -> Seq<Edge> {
    if cells[i] == WALL {
        seq![]
    } else {
        match neighbour(w, h, i, d) {
            Some(j) => if cells[j] != WALL {
                seq![(i as usize, j as usize, 1u64)]
            } else {
                seq![]
            },
            None => seq![],
        }
    }
}

/// The steps out of the first `m` (tile, direction) pairs, tile `m / 4` in direction `m % 4`.
pub open spec fn track_edges(cells: Seq<u8>, w: int, h: int, m: int) -> Seq<Edge>
    decreases m,
{
    if m <= 0 {
        seq![]
    } else {
        track_edges(cells, w, h, m - 1) + track_moves(cells, w, h, (m - 1) / 4, (m - 1) % 4)
    }
}

/// Steps between two tiles ignoring walls.
pub open spec fn manhattan(w: int, a: int, b: int) -> int {
    let dr = a / w - b / w;
    let dc = a % w - b % w;
    (if dr < 0 { -dr } else { dr }) + (if dc < 0 { -dc } else { dc })
}

/// Jumping from track tile `a` to track tile `b` within `budget` steps saves at least
/// `min_saving` steps, and some.
pub open spec fn good_cheat(w: int, d: Seq<u64>, a: int, b: int, budget: int, min_saving: int) -> bool {
    let m = manhattan(w, a, b);
    let saving = d[b] as int - d[a] as int - m;
    &&& d[a] != UNREACHED
    &&& d[b] != UNREACHED
    &&& m <= budget
    &&& saving >= min_saving
    &&& saving > 0
}

/// The good cheats from tile `a` to the first `m` tiles.
pub open spec fn cheats_from(w: int, d: Seq<u64>, a: int, m: int, budget: int, min_saving: int) -> nat
    decreases m,
{
    if m <= 0 {
        0
    } else {
        cheats_from(w, d, a, m - 1, budget, min_saving) + if good_cheat(w, d, a, m - 1, budget, min_saving) {
            1nat
        } else {
            0nat
        }
    }
}

/// The good cheats from the first `m` tiles to any of the `n` tiles.
pub open spec fn cheats(w: int, d: Seq<u64>, m: int, n: int, budget: int, min_saving: int) -> nat
    decreases m,
{
    if m <= 0 {
        0
    } else {
        cheats(w, d, m - 1, n, budget, min_saving) + cheats_from(w, d, m - 1, n, budget, min_saving)
    }
}

pub open spec fn track_cells(text: Seq<u8>) -> Seq<u8> {
    let (cells, w, h) = text_grid(text)->0;
    cells
}

pub open spec fn track_width(text: Seq<u8>) -> int {
    let (cells, w, h) = text_grid(text)->0;
    w
}

/// The track in `text` is a grid with a start tile.
pub open spec fn track_valid(text: Seq<u8>) -> bool {
    &&& text_grid(text) is Some
    &&& first_index(track_cells(text), START, 0) < track_cells(text).len()
    &&& 4 * track_cells(text).len() + 4 <= usize::MAX
}

/// `d` holds the steps from the start to every tile along the track.
pub open spec fn track_steps(text: Seq<u8>, d: Seq<u64>) -> bool {
    let (cells, w, h) = text_grid(text)->0;
    let n = cells.len() as int;
    shortest_distances(n, track_edges(cells, w, h, 4 * n), seq![first_index(cells, START, 0) as usize], d)
}

fn build_track_edges(cells: &Vec<u8>, w: usize, h: usize) -> (r: Vec<Edge>)
    requires
        w > 0,
        cells@.len() == w * h,
        4 * cells@.len() + 4 <= usize::MAX,
    ensures
        r@ == track_edges(cells@, w as int, h as int, 4 * cells@.len() as int),
        forall|k: int| 0 <= k < r@.len() ==> (#[trigger] r@[k]).0 < cells@.len() && r@[k].1 < cells@.len(),
{
    let n = cells.len();
    let mut edges: Vec<Edge> = Vec::new();
    let mut m: usize = 0;
    while m < 4 * n
        invariant
            n == cells@.len(),
            n == w * h,
            w > 0,
            4 * n + 4 <= usize::MAX,
            m <= 4 * n,
            edges@ == track_edges(cells@, w as int, h as int, m as int),
            forall|k: int| 0 <= k < edges@.len() ==> (#[trigger] edges@[k]).0 < n && edges@[k].1 < n,
        decreases 4 * n - m,
    {
        let i = m / 4;
        let d = m % 4;
        let ghost before = edges@;
        if cells[i] != WALL {
            match neighbour_at(w, h, i, d) {
                Some(j) => {
                    if cells[j] != WALL {
                        edges.push((i, j, 1));
                    }
                },
                None => {},
            }
        }
        proof {
            assert(edges@ =~= before + track_moves(cells@, w as int, h as int, i as int, d as int));
            assert forall|k: int| 0 <= k < edges@.len() implies (#[trigger] edges@[k]).0 < n && edges@[k].1 < n by {
                if k >= before.len() {
                    assert(edges@[k] == edges@.last());
                }
            }
        }
        m += 1;
    }
    edges
}

fn distance(w: usize, a: usize, b: usize) -> (r: u128)
    requires
        w > 0,
    ensures
        r as int == manhattan(w as int, a as int, b as int),
{
    let (ra, ca, rb, cb) = (a / w, a % w, b / w, b % w);
    let dr = if ra < rb { rb - ra } else { ra - rb };
    let dc = if ca < cb { cb - ca } else { ca - cb };
    (dr as u128) + (dc as u128)
}

proof fn lemma_cheats_monotone(w: int, d: Seq<u64>, k: int, m: int, n: int, budget: int, min_saving: int)
    requires
        k <= m,
    ensures
        cheats(w, d, k, n, budget, min_saving) <= cheats(w, d, m, n, budget, min_saving),
    decreases m - k,
{
    if k < m {
        lemma_cheats_monotone(w, d, k, m - 1, n, budget, min_saving);
    }
}

proof fn lemma_from_monotone(w: int, d: Seq<u64>, a: int, k: int, m: int, budget: int, min_saving: int)
    requires
        k <= m,
    ensures
        cheats_from(w, d, a, k, budget, min_saving) <= cheats_from(w, d, a, m, budget, min_saving),
    decreases m - k,
{
    if k < m {
        lemma_from_monotone(w, d, a, k, m - 1, budget, min_saving);
    }
}

/// The tiles of the track in `input` with the steps from the start to each.
fn read_track(input: &str) -> (r: Option<(Vec<u8>, usize, usize, Vec<u64>)>)
    ensures
        match r {
            Some((cells, w, h, d)) => {
                &&& track_valid(input.spec_bytes())
                &&& text_grid(input.spec_bytes()) == Some((cells@, w as int, h as int))
                &&& track_steps(input.spec_bytes(), d@)
                &&& d@.len() == cells@.len()
                &&& w > 0
            },
            None => !track_valid(input.spec_bytes()),
        },
{
    let (cells, w, h) = match read_grid(input.as_bytes()) {
        Some(g) => g,
        None => return None,
    };
    let n = cells.len();
    if n > (usize::MAX - 4) / 4 {
        return None;
    }
    let s = find_first(&cells, START);
    if s >= n {
        return None;
    }
    assert(w > 0) by (nonlinear_arith)
        requires
            cells@.len() == w * h,
            cells@.len() > 0,
    ;
    let edges = build_track_edges(&cells, w, h);
    let sources = vec![s];
    let d = shortest(n, &edges, &sources);
    assert(sources@ =~= seq![first_index(cells@, START, 0) as usize]);
    assert(track_steps(input.spec_bytes(), d@));
    Some((cells, w, h, d))
}

proof fn lemma_no_cheats(w: int, d: Seq<u64>, m: int, n: int, budget: int, min_saving: int)
    requires
        budget < 0,
    ensures
        cheats(w, d, m, n, budget, min_saving) == 0,
    decreases m,
{
    if m > 0 {
        lemma_no_cheats(w, d, m - 1, n, budget, min_saving);
        lemma_none_from(w, d, m - 1, n, budget, min_saving);
    }
}

proof fn lemma_none_from(w: int, d: Seq<u64>, a: int, m: int, budget: int, min_saving: int)
    requires
        budget < 0,
    ensures
        cheats_from(w, d, a, m, budget, min_saving) == 0,
    decreases m,
{
    if m > 0 {
        lemma_none_from(w, d, a, m - 1, budget, min_saving);
    }
}

/// How many cheats within `budget` steps through walls save at least `min_saving`
/// steps on the track in `input`. `None` where the track has no start, its rows differ
/// in length, or the count does not fit in a `usize`.
pub fn count_cheats(input: &str, budget: u64, min_saving: u64) -> (r: Option<usize>)
    ensures
        match r {
            Some(c) => track_valid(input.spec_bytes()) && exists|d: Seq<u64>|
                #[trigger] track_steps(input.spec_bytes(), d) && c == cheats(
                    track_width(input.spec_bytes()),
                    d,
                    track_cells(input.spec_bytes()).len() as int,
                    track_cells(input.spec_bytes()).len() as int,
                    budget as int,
                    min_saving as int,
                ),
            None => !track_valid(input.spec_bytes()) || exists|d: Seq<u64>|
                #[trigger] track_steps(input.spec_bytes(), d) && cheats(
                    track_width(input.spec_bytes()),
                    d,
                    track_cells(input.spec_bytes()).len() as int,
                    track_cells(input.spec_bytes()).len() as int,
                    budget as int,
                    min_saving as int,
                ) > usize::MAX,
        },
{
    let (cells, w, h, d) = match read_track(input) {
        Some(t) => t,
        None => return None,
    };
    let n = cells.len();
    let ghost text = input.spec_bytes();
    let ghost (wi, ni, bi, mi) = (w as int, n as int, budget as int, min_saving as int);
    let mut total: usize = 0;
    let mut a: usize = 0;
    while a < n
        invariant
            n == cells@.len(),
            d@.len() == n,
            w > 0,
            wi == w,
            ni == n,
            bi == budget,
            mi == min_saving,
            text == input.spec_bytes(),
            track_valid(text),
            track_steps(text, d@),
            track_width(text) == wi,
            track_cells(text).len() == ni,
            a <= n,
            total == cheats(wi, d@, a as int, ni, bi, mi),
        decreases n - a,
    {
        let da = d[a];
        let mut b: usize = 0;
        proof {
            lemma_cheats_monotone(wi, d@, a + 1, ni, ni, bi, mi);
        }
        while b < n
            invariant
                n == cells@.len(),
                d@.len() == n,
                w > 0,
                wi == w,
                ni == n,
                bi == budget,
                mi == min_saving,
                text == input.spec_bytes(),
                track_valid(text),
                track_steps(text, d@),
                track_width(text) == wi,
                track_cells(text).len() == ni,
                a < n,
                da == d@[a as int],
                b <= n,
                cheats(wi, d@, a + 1, ni, bi, mi) <= cheats(wi, d@, ni, ni, bi, mi),
                total == cheats(wi, d@, a as int, ni, bi, mi) + cheats_from(wi, d@, a as int, b as int, bi, mi),
            decreases n - b,
        {
            let db = d[b];
            if da != UNREACHED && db != UNREACHED {
                let m = distance(w, a, b);
                if m <= budget as u128 && db > da && (db - da) as u128 > m && (db - da) as u128 - m >= min_saving as u128 {
                    proof {
                        lemma_from_monotone(wi, d@, a as int, b + 1, ni, bi, mi);
                    }
                    total = match total.checked_add(1) {
                        Some(t) => t,
                        None => return None,
                    };
                }
            }
            b += 1;
        }
        a += 1;
    }
    Some(total)
}

/// Cheats of at most two steps that save at least `limit` steps.
pub fn part_one_with_limit(input: &str, limit: usize) -> (r: Option<usize>)
    ensures
        match r {
            Some(c) => track_valid(input.spec_bytes()) && exists|d: Seq<u64>|
                #[trigger] track_steps(input.spec_bytes(), d) && c == cheats(
                    track_width(input.spec_bytes()),
                    d,
                    track_cells(input.spec_bytes()).len() as int,
                    track_cells(input.spec_bytes()).len() as int,
                    2,
                    limit as int,
                ),
            None => !track_valid(input.spec_bytes()) || exists|d: Seq<u64>|
                #[trigger] track_steps(input.spec_bytes(), d) && cheats(
                    track_width(input.spec_bytes()),
                    d,
                    track_cells(input.spec_bytes()).len() as int,
                    track_cells(input.spec_bytes()).len() as int,
                    2,
                    limit as int,
                ) > usize::MAX,
        },
{
    count_cheats(input, 2, limit as u64)
}

/// Cheats of at most two steps that save at least 100 steps.
pub fn part_one(input: &str) -> (r: Option<usize>)
    ensures
        match r {
            Some(c) => track_valid(input.spec_bytes()) && exists|d: Seq<u64>|
                #[trigger] track_steps(input.spec_bytes(), d) && c == cheats(
                    track_width(input.spec_bytes()),
                    d,
                    track_cells(input.spec_bytes()).len() as int,
                    track_cells(input.spec_bytes()).len() as int,
                    2,
                    100,
                ),
            None => !track_valid(input.spec_bytes()) || exists|d: Seq<u64>|
                #[trigger] track_steps(input.spec_bytes(), d) && cheats(
                    track_width(input.spec_bytes()),
                    d,
                    track_cells(input.spec_bytes()).len() as int,
                    track_cells(input.spec_bytes()).len() as int,
                    2,
                    100,
                ) > usize::MAX,
        },
{
    part_one_with_limit(input, 100)
}

/// Cheats of at most `shortcut_distance` steps that save at least `min_improvement`
/// steps; `None` also where the count does not fit in a `u32`.
pub fn part_two_ex(input: &str, shortcut_distance: i32, min_improvement: usize) -> (r: Option<u32>)
    ensures
        match r {
            Some(c) => track_valid(input.spec_bytes()) && exists|d: Seq<u64>|
                #[trigger] track_steps(input.spec_bytes(), d) && c == cheats(
                    track_width(input.spec_bytes()),
                    d,
                    track_cells(input.spec_bytes()).len() as int,
                    track_cells(input.spec_bytes()).len() as int,
                    shortcut_distance as int,
                    min_improvement as int,
                ),
            None => !track_valid(input.spec_bytes()) || exists|d: Seq<u64>|
                #[trigger] track_steps(input.spec_bytes(), d) && cheats(
                    track_width(input.spec_bytes()),
                    d,
                    track_cells(input.spec_bytes()).len() as int,
                    track_cells(input.spec_bytes()).len() as int,
                    shortcut_distance as int,
                    min_improvement as int,
                ) > u32::MAX,
        },
{
    if shortcut_distance < 0 {
        // no jump is that short
        return match read_track(input) {
            None => None,
            Some((cells, w, h, d)) => {
                proof {
                    let n = cells@.len() as int;
                    lemma_no_cheats(w as int, d@, n, n, shortcut_distance as int, min_improvement as int);
                }
                Some(0)
            },
        };
    }
    match count_cheats(input, shortcut_distance as u64, min_improvement as u64) {
        Some(c) => if c <= u32::MAX as usize {
            Some(c as u32)
        } else {
            None
        },
        None => None,
    }
}

/// Cheats of at most twenty steps that save at least 100 steps.
pub fn part_two(input: &str) -> (r: Option<u32>)
    ensures
        match r {
            Some(c) => track_valid(input.spec_bytes()) && exists|d: Seq<u64>|
                #[trigger] track_steps(input.spec_bytes(), d) && c == cheats(
                    track_width(input.spec_bytes()),
                    d,
                    track_cells(input.spec_bytes()).len() as int,
                    track_cells(input.spec_bytes()).len() as int,
                    20,
                    100,
                ),
            None => !track_valid(input.spec_bytes()) || exists|d: Seq<u64>|
                #[trigger] track_steps(input.spec_bytes(), d) && cheats(
                    track_width(input.spec_bytes()),
                    d,
                    track_cells(input.spec_bytes()).len() as int,
                    track_cells(input.spec_bytes()).len() as int,
                    20,
                    100,
                ) > u32::MAX,
        },
{
    part_two_ex(input, 20, 100)
}

proof fn lemma_track_edges_ok(cells: Seq<u8>, w: int, h: int, m: int)
    requires
        w > 0,
        cells.len() == w * h,
        0 <= m <= 4 * cells.len(),
    ensures
        forall|e: int| 0 <= e < track_edges(cells, w, h, m).len() ==> (#[trigger] track_edges(cells, w, h, m)[e]).2 >= 1
            && track_edges(cells, w, h, m)[e].0 < cells.len() && track_edges(cells, w, h, m)[e].1 < cells.len(),
    decreases m,
{
    if m > 0 {
        lemma_track_edges_ok(cells, w, h, m - 1);
        let prev = track_edges(cells, w, h, m - 1);
        let i = (m - 1) / 4;
        let d = (m - 1) % 4;
        let mv = track_moves(cells, w, h, i, d);
        if neighbour(w, h, i, d) is Some {
            crate::grid::lemma_neighbour_in_grid(w, h, i, d);
        }
        assert forall|e: int| 0 <= e < track_edges(cells, w, h, m).len() implies (#[trigger] track_edges(cells, w, h, m)[e]).2 >= 1
            && track_edges(cells, w, h, m)[e].0 < cells.len() && track_edges(cells, w, h, m)[e].1 < cells.len() by {
            if e >= prev.len() {
                assert(track_edges(cells, w, h, m)[e] == mv[e - prev.len()]);
            }
        }
    }
}

/// The steps along the track are one table: the cheat count is well defined.
pub proof fn track_steps_unique(text: Seq<u8>, d1: Seq<u64>, d2: Seq<u64>)
    requires
        track_valid(text),
        track_steps(text, d1),
        track_steps(text, d2),
    ensures
        d1 == d2,
{
    let (cells, w, h) = text_grid(text)->0;
    let n = cells.len() as int;
    crate::grid::lemma_text_grid_shape(text);
    lemma_track_edges_ok(cells, w, h, 4 * n);
    let edges = track_edges(cells, w, h, 4 * n);
    assert(edges_valid(n, edges));
    shortest_distances_unique(n, edges, seq![first_index(cells, START, 0) as usize], d1, d2);
}

} // verus!
