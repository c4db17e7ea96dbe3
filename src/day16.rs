//! A reindeer maze: moving one tile forward costs 1 and turning a quarter costs 1000.
//! A state is a tile and a facing; shortest costs come from the relaxation in
//! `paths`, forwards from the start facing east and backwards from the end.
use vstd::prelude::*;
use crate::grid::{neighbour, neighbour_at, read_grid, text_grid};
use crate::paths::{shortest, shortest_distances, shortest_distances_unique, Edge, UNREACHED};
use vstd::string::StringSliceAdditionalSpecFns;

verus! {

pub const WALL: u8 = 35;
pub const START: u8 = 83;
pub const END: u8 = 69;
/// Facing east.
pub const EAST: usize = 3;

/// The first cell holding `b`, or the length where there is none.
pub open spec fn first_index(cells: Seq<u8>, b: u8, from: int) -> int
    decreases cells.len() - from,
{
    if from >= cells.len() || from < 0 {
        cells.len() as int
    } else if cells[from] == b {
        from
    } else {
        first_index(cells, b, from + 1)
    }
}

/// The two facings a quarter turn away from `d`.
pub open spec fn turn(d: int, which: int) -> int {
    if d < 2 {
        2 + which
    } else {
        which
    }
}

/// The moves out of state `u`, the tile `u / 4` facing `u % 4`: a step forward onto a
/// tile that is not a wall, and the two quarter turns. Walls have none.
pub open spec fn moves_of(cells: Seq<u8>, w: int, h: int, u: int) -> Seq<Edge> {
    let i = u / 4;
    let d = u % 4;
    if cells[i] == WALL {
        seq![]
    } else {
        let step: Seq<Edge> = match neighbour(w, h, i, d) {
            Some(j) => if cells[j] != WALL {
                seq![(u as usize, (4 * j + d) as usize, 1u64)]
            } else {
                seq![]
            },
            None => seq![],
        };
        step + seq![
            (u as usize, (4 * i + turn(d, 0)) as usize, 1000u64),
            (u as usize, (4 * i + turn(d, 1)) as usize, 1000u64),
        ]
    }
}

/// The moves out of the first `m` states.
pub open spec fn maze_edges(cells: Seq<u8>, w: int, h: int, m: int) -> Seq<Edge>
    decreases m,
{
    if m <= 0 {
        seq![]
    } else {
        maze_edges(cells, w, h, m - 1) + moves_of(cells, w, h, m - 1)
    }
}

/// The same moves walked backwards.
pub open spec fn reversed(edges: Seq<Edge>) -> Seq<Edge> {
    edges.map_values(|e: Edge| (e.1, e.0, e.2))
}

/// The cheapest of the four states on tile `t`.
pub open spec fn best_at(d: Seq<u64>, t: int) -> u64 {
    let a = if d[4 * t] <= d[4 * t + 1] { d[4 * t] } else { d[4 * t + 1] };
    let b = if d[4 * t + 2] <= d[4 * t + 3] { d[4 * t + 2] } else { d[4 * t + 3] };
    if a <= b { a } else { b }
}

/// The tiles of the maze in `text`.
pub open spec fn maze_cells(text: Seq<u8>) -> Seq<u8> {
    let (cells, w, h) = text_grid(text)->0;
    cells
}

/// The maze in `text` has a start and an end tile and fits the state numbering.
pub open spec fn maze_valid(text: Seq<u8>) -> bool {
    &&& text_grid(text) is Some
    &&& ({
        let (cells, w, h) = text_grid(text)->0;
        &&& first_index(cells, START, 0) < cells.len()
        &&& first_index(cells, END, 0) < cells.len()
        &&& 4 * cells.len() + 4 <= usize::MAX
    })
}

/// `d` holds the least cost of every state from the start, facing east.
pub open spec fn forward_costs(text: Seq<u8>, d: Seq<u64>) -> bool {
    let (cells, w, h) = text_grid(text)->0;
    let n = 4 * cells.len();
    let s = first_index(cells, START, 0);
    shortest_distances(n as int, maze_edges(cells, w, h, n as int), seq![(4 * s + EAST) as usize], d)
}

/// `d` holds the least cost from every state to the end, in any facing.
pub open spec fn backward_costs(text: Seq<u8>, d: Seq<u64>) -> bool {
    let (cells, w, h) = text_grid(text)->0;
    let n = 4 * cells.len();
    let e = first_index(cells, END, 0);
    shortest_distances(
        n as int,
        reversed(maze_edges(cells, w, h, n as int)),
        seq![(4 * e) as usize, (4 * e + 1) as usize, (4 * e + 2) as usize, (4 * e + 3) as usize],
        d,
    )
}

pub(crate) fn find_first(cells: &Vec<u8>, b: u8) -> (r: usize)
    ensures
        r as int == first_index(cells@, b, 0),
{
    let mut i: usize = 0;
    while i < cells.len()
        invariant
            i <= cells@.len(),
            first_index(cells@, b, 0) == first_index(cells@, b, i as int),
        decreases cells@.len() - i,
    {
        if cells[i] == b {
            return i;
        }
        i += 1;
    }
    i
}

proof fn lemma_state_split(i: int, d: int)
    requires
        i >= 0,
        0 <= d < 4,
    ensures
        (4 * i + d) / 4 == i,
        (4 * i + d) % 4 == d,
{
    vstd::arithmetic::div_mod::lemma_fundamental_div_mod_converse(4 * i + d, 4, i, d);
}

/// Builds the moves of every state of the maze.
fn build_edges(cells: &Vec<u8>, w: usize, h: usize) -> (r: Vec<Edge>)
    requires
        w > 0,
        cells@.len() == w * h,
        4 * cells@.len() + 4 <= usize::MAX,
    ensures
        r@ == maze_edges(cells@, w as int, h as int, 4 * cells@.len() as int),
{
    let n = cells.len();
    let mut edges: Vec<Edge> = Vec::new();
    let mut i: usize = 0;
    while i < n
        invariant
            n == cells@.len(),
            n == w * h,
            w > 0,
            4 * n + 4 <= usize::MAX,
            i <= n,
            edges@ == maze_edges(cells@, w as int, h as int, 4 * i),
        decreases n - i,
    {
        let mut d: usize = 0;
        while d < 4
            invariant
                n == cells@.len(),
                n == w * h,
                w > 0,
                4 * n + 4 <= usize::MAX,
                i < n,
                d <= 4,
                edges@ == maze_edges(cells@, w as int, h as int, 4 * i + d),
            decreases 4 - d,
        {
            let u = 4 * i + d;
            proof {
                lemma_state_split(i as int, d as int);
            }
            let ghost before = edges@;
            if cells[i] != WALL {
                match neighbour_at(w, h, i, d) {
                    Some(j) => {
                        if cells[j] != WALL {
                            edges.push((u, 4 * j + d, 1));
                        }
                    },
                    None => {},
                }
                let (t0, t1): (usize, usize) = if d < 2 {
                    (2, 3)
                } else {
                    (0, 1)
                };
                edges.push((u, 4 * i + t0, 1000));
                edges.push((u, 4 * i + t1, 1000));
            }
            proof {
                assert(edges@ =~= before + moves_of(cells@, w as int, h as int, u as int));
            }
            d += 1;
        }
        i += 1;
    }
    edges
}

proof fn lemma_moves_valid(cells: Seq<u8>, w: int, h: int, m: int)
    requires
        w > 0,
        cells.len() == w * h,
        0 <= m <= 4 * cells.len(),
    ensures
        forall|e: int|
            0 <= e < maze_edges(cells, w, h, m).len() ==> (#[trigger] maze_edges(cells, w, h, m)[e]).0
                < 4 * cells.len() && maze_edges(cells, w, h, m)[e].1 < 4 * cells.len(),
    decreases m,
{
    if m > 0 {
        lemma_moves_valid(cells, w, h, m - 1);
        let u = m - 1;
        let i = u / 4;
        let d = u % 4;
        assert(0 <= i < cells.len());
        assert(4 * i + 3 < 4 * cells.len());
        match neighbour(w, h, i, d) {
            Some(j) => {
                crate::grid::lemma_neighbour_in_grid(w, h, i, d);
            },
            None => {},
        }
        let prev = maze_edges(cells, w, h, m - 1);
        let mv = moves_of(cells, w, h, u);
        assert forall|e: int|
            0 <= e < maze_edges(cells, w, h, m).len() implies (#[trigger] maze_edges(cells, w, h, m)[e]).0
                < 4 * cells.len() && maze_edges(cells, w, h, m)[e].1 < 4 * cells.len() by {
            if e >= prev.len() {
                assert(maze_edges(cells, w, h, m)[e] == mv[e - prev.len()]);
            }
        }
    }
}

fn reverse_edges(edges: &Vec<Edge>) -> (r: Vec<Edge>)
    ensures
        r@ == reversed(edges@),
{
    let mut r: Vec<Edge> = Vec::new();
    let mut i: usize = 0;
    while i < edges.len()
        invariant
            i <= edges@.len(),
            r@ == reversed(edges@.subrange(0, i as int)),
        decreases edges@.len() - i,
    {
        let (a, b, c) = edges[i];
        r.push((b, a, c));
        i += 1;
        assert(r@ =~= reversed(edges@.subrange(0, i as int)));
    }
    assert(edges@.subrange(0, edges@.len() as int) =~= edges@);
    r
}

fn best_of(d: &Vec<u64>, t: usize) -> (r: u64)
    requires
        4 * t + 3 < d@.len(),
    ensures
        r == best_at(d@, t as int),
{
    let _n = d.len();
    let a = if d[4 * t] <= d[4 * t + 1] { d[4 * t] } else { d[4 * t + 1] };
    let b = if d[4 * t + 2] <= d[4 * t + 3] { d[4 * t + 2] } else { d[4 * t + 3] };
    if a <= b { a } else { b }
}

/// The maze of `input` with its state moves, start tile and end tile.
fn read_maze(input: &str) -> (r: Option<(Vec<u8>, usize, usize, Vec<Edge>, usize, usize)>)
    ensures
        match r {
            Some((cells, w, h, edges, s, e)) => {
                &&& maze_valid(input.spec_bytes())
                &&& text_grid(input.spec_bytes()) == Some((cells@, w as int, h as int))
                &&& w > 0
                &&& cells@.len() == w * h
                &&& edges@ == maze_edges(cells@, w as int, h as int, 4 * cells@.len() as int)
                &&& s as int == first_index(cells@, START, 0)
                &&& e as int == first_index(cells@, END, 0)
                &&& s < cells@.len()
                &&& e < cells@.len()
                &&& forall|k: int| 0 <= k < edges@.len() ==> (#[trigger] edges@[k]).0 < 4 * cells@.len() && edges@[k].1 < 4 * cells@.len()
            },
            None => !maze_valid(input.spec_bytes()),
        },
{
    let (cells, w, h) = match read_grid(input.as_bytes()) {
        Some(g) => g,
        None => return None,
    };
    let n = cells.len();
    if n > (usize::MAX - 4) / 4 {
        return None;
    }
    let s = find_first(&cells, START);
    let e = find_first(&cells, END);
    if s >= n || e >= n {
        return None;
    }
    assert(w > 0) by (nonlinear_arith)
        requires
            cells@.len() == w * h,
            cells@.len() > 0,
    ;
    let edges = build_edges(&cells, w, h);
    proof {
        lemma_moves_valid(cells@, w as int, h as int, 4 * n as int);
    }
    Some((cells, w, h, edges, s, e))
}

/// The least cost of going from the start, facing east, to the end of the maze in
/// `input`. `None` where the maze has no start or end, its rows differ in length, the
/// end cannot be reached, or the cost does not fit in a `usize`.
pub fn part_one(input: &str) -> (r: Option<usize>)
    ensures
        match r {
            Some(c) => maze_valid(input.spec_bytes()) && exists|d: Seq<u64>|
                #[trigger] forward_costs(input.spec_bytes(), d) && best_at(
                    d,
                    first_index(maze_cells(input.spec_bytes()), END, 0),
                ) == c && c != UNREACHED,
            None => !maze_valid(input.spec_bytes()) || exists|d: Seq<u64>|
                #[trigger] forward_costs(input.spec_bytes(), d) && (best_at(
                    d,
                    first_index(maze_cells(input.spec_bytes()), END, 0),
                ) == UNREACHED || best_at(d, first_index(maze_cells(input.spec_bytes()), END, 0))
                    > usize::MAX),
        },
{
    let (cells, w, h, edges, s, e) = match read_maze(input) {
        Some(m) => m,
        None => return None,
    };
    let n = 4 * cells.len();
    let sources = vec![4 * s + EAST];
    let d = shortest(n, &edges, &sources);
    assert(sources@ =~= seq![(4 * s + EAST) as usize]);
    assert(forward_costs(input.spec_bytes(), d@));
    let best = best_of(&d, e);
    if best == UNREACHED || best > usize::MAX as u64 {
        return None;
    }
    Some(best as usize)
}

/// How many tiles `t` among the first `m` have a state on a cheapest path: its cost
/// from the start and its cost to the end add up to `best`.
pub open spec fn tiles_on_best(f: Seq<u64>, b: Seq<u64>, best: u64, m: int) -> nat
    decreases m,
{
    if m <= 0 {
        0
    } else {
        tiles_on_best(f, b, best, m - 1) + if exists|k: int|
            0 <= k < 4 && #[trigger] f[4 * (m - 1) + k] != UNREACHED && b[4 * (m - 1) + k]
                != UNREACHED && f[4 * (m - 1) + k] as nat + b[4 * (m - 1) + k] as nat == best as nat {
            1nat
        } else {
            0nat
        }
    }
}

/// How many tiles of the maze in `input` lie on some cheapest path from the start to
/// the end. `None` where `part_one` has no answer.
pub fn part_two(input: &str) -> (r: Option<usize>)
    ensures
        match r {
            Some(c) => maze_valid(input.spec_bytes()) && exists|f: Seq<u64>, b: Seq<u64>|
                #[trigger] forward_costs(input.spec_bytes(), f) && #[trigger] backward_costs(
                    input.spec_bytes(),
                    b,
                ) && best_at(f, first_index(maze_cells(input.spec_bytes()), END, 0)) != UNREACHED
                    && c == tiles_on_best(
                    f,
                    b,
                    best_at(f, first_index(maze_cells(input.spec_bytes()), END, 0)),
                    maze_cells(input.spec_bytes()).len() as int,
                ),
            None => !maze_valid(input.spec_bytes()) || exists|f: Seq<u64>|
                #[trigger] forward_costs(input.spec_bytes(), f) && best_at(
                    f,
                    first_index(maze_cells(input.spec_bytes()), END, 0),
                ) == UNREACHED,
        },
{
    let (cells, w, h, edges, s, e) = match read_maze(input) {
        Some(m) => m,
        None => return None,
    };
    let n = 4 * cells.len();
    let sources = vec![4 * s + EAST];
    let f = shortest(n, &edges, &sources);
    assert(sources@ =~= seq![(4 * s + EAST) as usize]);
    assert(forward_costs(input.spec_bytes(), f@));
    let best = best_of(&f, e);
    if best == UNREACHED {
        return None;
    }
    let back = reverse_edges(&edges);
    let ends = vec![4 * e, 4 * e + 1, 4 * e + 2, 4 * e + 3];
    proof {
        assert forall|k: int| 0 <= k < back@.len() implies (#[trigger] back@[k]).0 < n && back@[k].1 < n by {
            assert(back@[k] == (edges@[k].1, edges@[k].0, edges@[k].2));
        }
    }
    let b = shortest(n, &back, &ends);
    assert(ends@ =~= seq![(4 * e) as usize, (4 * e + 1) as usize, (4 * e + 2) as usize, (4 * e + 3) as usize]);
    assert(backward_costs(input.spec_bytes(), b@));
    let tiles = cells.len();
    let mut count: usize = 0;
    let mut t: usize = 0;
    while t < tiles
        invariant
            tiles == cells@.len(),
            n == 4 * tiles,
            f@.len() == 4 * tiles,
            b@.len() == 4 * tiles,
            t <= tiles,
            count <= t,
            count == tiles_on_best(f@, b@, best, t as int),
        decreases tiles - t,
    {
        let mut on = false;
        let mut k: usize = 0;
        while k < 4
            invariant
                tiles == cells@.len(),
                n == 4 * tiles,
                f@.len() == 4 * tiles,
                b@.len() == 4 * tiles,
                t < tiles,
                k <= 4,
                on == exists|j: int|
                    0 <= j < k && #[trigger] f@[4 * t + j] != UNREACHED && b@[4 * t + j] != UNREACHED
                        && f@[4 * t + j] as nat + b@[4 * t + j] as nat == best as nat,
            decreases 4 - k,
        {
            let x = f[4 * t + k];
            let y = b[4 * t + k];
            if x != UNREACHED && y != UNREACHED && x as u128 + y as u128 == best as u128 {
                on = true;
            }
            proof {
                if on {
                    if x != UNREACHED && y != UNREACHED && x as nat + y as nat == best as nat {
                        assert(f@[4 * t + k as int] == x);
                    }
                }
            }
            k += 1;
        }
        if on {
            count += 1;
        }
        t += 1;
    }
    Some(count)
}

proof fn lemma_weights_positive(cells: Seq<u8>, w: int, h: int, m: int)
    ensures
        forall|e: int| 0 <= e < maze_edges(cells, w, h, m).len() ==> (#[trigger] maze_edges(cells, w, h, m)[e]).2 >= 1,
    decreases m,
{
    if m > 0 {
        lemma_weights_positive(cells, w, h, m - 1);
        let prev = maze_edges(cells, w, h, m - 1);
        let mv = moves_of(cells, w, h, m - 1);
        assert forall|e: int| 0 <= e < maze_edges(cells, w, h, m).len() implies (#[trigger] maze_edges(cells, w, h, m)[e]).2 >= 1 by {
            if e >= prev.len() {
                assert(maze_edges(cells, w, h, m)[e] == mv[e - prev.len()]);
            }
        }
    }
}

/// The least costs from the start are one table: the cost of the maze is well defined.
pub proof fn maze_costs_unique(text: Seq<u8>, d1: Seq<u64>, d2: Seq<u64>)
    requires
        maze_valid(text),
        forward_costs(text, d1),
        forward_costs(text, d2),
    ensures
        d1 == d2,
{
    let (cells, w, h) = text_grid(text)->0;
    let n = 4 * cells.len();
    crate::grid::lemma_text_grid_shape(text);
    lemma_moves_valid(cells, w, h, n as int);
    lemma_weights_positive(cells, w, h, n as int);
    shortest_distances_unique(
        n as int,
        maze_edges(cells, w, h, n as int),
        seq![(4 * first_index(cells, START, 0) + EAST) as usize],
        d1,
        d2,
    );
}

} // verus!
