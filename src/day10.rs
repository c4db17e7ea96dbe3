//! A topographic map of digits. A hiking trail climbs from a 0 to a 9 one level per
//! step, moving up, down, left or right. A trailhead's score counts the 9s it reaches;
//! its rating counts its distinct trails.
use vstd::prelude::*;
use crate::grid::{lemma_neighbour_in_grid, neighbour, neighbour_at, read_grid, text_grid};
use crate::text::usize_answer;
use crate::day21::pow4;
use vstd::string::StringSliceAdditionalSpecFns;

verus! {

pub const ZERO: u8 = 48;
pub const NINE: u8 = 57;

pub open spec fn height_ok(b: u8) -> bool {
    ZERO <= b && b <= NINE
}

/// Moving from `i` in direction `d` climbs one level.
pub open spec fn climbs(cells: Seq<u8>, w: int, h: int, i: int, d: int) -> bool {
    match neighbour(w, h, i, d) {
        Some(j) => 0 <= j < cells.len() && height_ok(cells[i]) && cells[i] < NINE && cells[j] == cells[i] + 1,
        None => false,
    }
}

/// The distinct trails from `i` up to a 9.
pub open spec fn trails(cells: Seq<u8>, w: int, h: int, i: int) -> nat
    decreases NINE - cells[i],
{
    if !(0 <= i < cells.len()) || !height_ok(cells[i]) {
        0
    } else if cells[i] == NINE {
        1
    } else {
        (if climbs(cells, w, h, i, 0) { trails(cells, w, h, neighbour(w, h, i, 0)->0) } else { 0 })
            + (if climbs(cells, w, h, i, 1) { trails(cells, w, h, neighbour(w, h, i, 1)->0) } else { 0 })
            + (if climbs(cells, w, h, i, 2) { trails(cells, w, h, neighbour(w, h, i, 2)->0) } else { 0 })
            + (if climbs(cells, w, h, i, 3) { trails(cells, w, h, neighbour(w, h, i, 3)->0) } else { 0 })
    }
}

/// The cell next to `j` in direction `d` is one level lower.
pub open spec fn steps_down(cells: Seq<u8>, w: int, h: int, j: int, d: int) -> bool {
    match neighbour(w, h, j, d) {
        Some(k) => 0 <= k < cells.len() && 0 <= j < cells.len() && cells[j] > ZERO && cells[k] == cells[j] - 1,
        None => false,
    }
}

/// Some climb from `z` ends on `j`.
pub open spec fn reached(cells: Seq<u8>, w: int, h: int, z: int, j: int) -> bool
    decreases cells[j],
{
    if j == z {
        true
    } else if !(0 <= j < cells.len()) || !height_ok(cells[j]) || cells[j] == ZERO {
        false
    } else {
        exists|d: int|
            0 <= d < 4 && #[trigger] steps_down(cells, w, h, j, d) && reached(cells, w, h, z, neighbour(w, h, j, d)->0)
    }
}

/// How many 9s among the first `m` cells a climb from `z` reaches.
pub open spec fn peaks(cells: Seq<u8>, w: int, h: int, z: int, m: int) -> nat
    decreases m,
{
    if m <= 0 {
        0
    } else {
        peaks(cells, w, h, z, m - 1) + if cells[m - 1] == NINE && reached(cells, w, h, z, m - 1) {
            1nat
        } else {
            0nat
        }
    }
}

/// Over the trailheads among the first `m` cells, their scores or, with `rating`, their
/// ratings, summed.
pub open spec fn trailhead_total(cells: Seq<u8>, w: int, h: int, m: int, rating: bool) -> nat
    decreases m,
{
    if m <= 0 {
        0
    } else {
        trailhead_total(cells, w, h, m - 1, rating) + if cells[m - 1] == ZERO {
            if rating {
                trails(cells, w, h, m - 1)
            } else {
                peaks(cells, w, h, m - 1, cells.len() as int)
            }
        } else {
            0
        }
    }
}

pub open spec fn map_total(text: Seq<u8>, rating: bool) -> nat {
    let (cells, w, h) = text_grid(text)->0;
    trailhead_total(cells, w, h, cells.len() as int, rating)
}

proof fn lemma_trails_bound(cells: Seq<u8>, w: int, h: int, i: int)
    requires
        w > 0,
        cells.len() == w * h,
    ensures
        trails(cells, w, h, i) <= pow4((NINE - cells[i]) as nat),
    decreases NINE - cells[i],
{
    if 0 <= i < cells.len() && height_ok(cells[i]) && cells[i] < NINE {
        let p = pow4((NINE - cells[i] - 1) as nat);
        assert forall|d: int| 0 <= d < 4 && climbs(cells, w, h, i, d) implies trails(cells, w, h, neighbour(w, h, i, d)->0) <= p by {
            lemma_trails_bound(cells, w, h, neighbour(w, h, i, d)->0);
        }
        assert(pow4((NINE - cells[i]) as nat) == 4 * p);
    }
}

/// The trails from every cell, computed level by level from the 9s down.
fn trail_table(cells: &Vec<u8>, w: usize, h: usize) -> (r: Vec<u64>)
    requires
        w > 0,
        cells@.len() == w * h,
    ensures
        r@.len() == cells@.len(),
        forall|i: int| 0 <= i < cells@.len() ==> #[trigger] r@[i] as nat == trails(cells@, w as int, h as int, i),
{
    let n = cells.len();
    let mut t: Vec<u64> = Vec::new();
    while t.len() < n
        invariant
            t@.len() <= n,
            forall|i: int| 0 <= i < t@.len() ==> #[trigger] t@[i] == 0,
        decreases n - t@.len(),
    {
        t.push(0);
    }
    let mut level: u8 = NINE + 1;
    while level > ZERO
        invariant
            n == cells@.len(),
            n == w * h,
            w > 0,
            t@.len() == n,
            ZERO <= level <= NINE + 1,
            forall|i: int| 0 <= i < n && (cells@[i] >= level || !height_ok(cells@[i])) ==> #[trigger] t@[i] as nat == trails(cells@, w as int, h as int, i),
        decreases level,
    {
        level -= 1;
        let mut i: usize = 0;
        while i < n
            invariant
                n == cells@.len(),
                n == w * h,
                w > 0,
                t@.len() == n,
                ZERO <= level <= NINE,
                i <= n,
                forall|j: int| 0 <= j < n && (cells@[j] > level || !height_ok(cells@[j]) || (cells@[j] == level && j < i)) ==> #[trigger] t@[j] as nat == trails(cells@, w as int, h as int, j),
            decreases n - i,
        {
            if cells[i] == level {
                let mut sum: u64 = 0;
                if level == NINE {
                    sum = 1;
                } else {
                    let mut d: usize = 0;
                    proof {
                        lemma_trails_bound(cells@, w as int, h as int, i as int);
                        assert(pow4(9) == 262144) by {
                            reveal_with_fuel(pow4, 10);
                        }
                        lemma_pow4_mono((NINE - level) as nat, 9);
                        reveal_with_fuel(partial_trails, 5);
                    }
                    while d < 4
                        invariant
                            n == cells@.len(),
                            n == w * h,
                            w > 0,
                            t@.len() == n,
                            i < n,
                            cells@[i as int] == level,
                            ZERO <= level < NINE,
                            d <= 4,
                            forall|j: int| 0 <= j < n && (cells@[j] > level || !height_ok(cells@[j]) || (cells@[j] == level && j < i)) ==> #[trigger] t@[j] as nat == trails(cells@, w as int, h as int, j),
                            sum as nat == partial_trails(cells@, w as int, h as int, i as int, d as int),
                            partial_trails(cells@, w as int, h as int, i as int, 4) == trails(cells@, w as int, h as int, i as int),
                            trails(cells@, w as int, h as int, i as int) <= 262144,
                            partial_trails(cells@, w as int, h as int, i as int, d as int) <= partial_trails(cells@, w as int, h as int, i as int, 4),
                        decreases 4 - d,
                    {
                        match neighbour_at(w, h, i, d) {
                            Some(j) => {
                                if cells[j] == level + 1 {
                                    proof {
                                        lemma_partial_mono(cells@, w as int, h as int, i as int, d + 1, 4);
                                    }
                                    sum = sum + t[j];
                                }
                            },
                            None => {},
                        }
                        proof {
                            lemma_partial_mono(cells@, w as int, h as int, i as int, d + 1, 4);
                        }
                        d += 1;
                    }
                }
                t.set(i, sum);
            }
            i += 1;
        }
    }
    t
}

/// The trails through the first `d` directions from `i`.
pub open spec fn partial_trails(cells: Seq<u8>, w: int, h: int, i: int, d: int) -> nat
    decreases d,
{
    if d <= 0 {
        0
    } else {
        partial_trails(cells, w, h, i, d - 1) + if climbs(cells, w, h, i, d - 1) {
            trails(cells, w, h, neighbour(w, h, i, d - 1)->0)
        } else {
            0
        }
    }
}

proof fn lemma_partial_mono(cells: Seq<u8>, w: int, h: int, i: int, k: int, n: int)
    requires
        k <= n,
    ensures
        partial_trails(cells, w, h, i, k) <= partial_trails(cells, w, h, i, n),
    decreases n - k,
{
    if k < n {
        lemma_partial_mono(cells, w, h, i, k, n - 1);
    }
}

proof fn lemma_pow4_mono(a: nat, b: nat)
    requires
        a <= b,
    ensures
        pow4(a) <= pow4(b),
    decreases b,
{
    if a < b {
        lemma_pow4_mono(a, (b - 1) as nat);
    }
}

/// Which cells a climb from `z` reaches, found level by level from the 1s up.
fn reach_marks(cells: &Vec<u8>, w: usize, h: usize, z: usize) -> (r: Vec<bool>)
    requires
        w > 0,
        cells@.len() == w * h,
        z < cells@.len(),
        cells@[z as int] == ZERO,
    ensures
        r@.len() == cells@.len(),
        forall|j: int| 0 <= j < cells@.len() ==> #[trigger] r@[j] == reached(cells@, w as int, h as int, z as int, j),
{
    let n = cells.len();
    let mut mark: Vec<bool> = Vec::new();
    while mark.len() < n
        invariant
            mark@.len() <= n,
            forall|j: int| 0 <= j < mark@.len() ==> #[trigger] mark@[j] == (j == z),
        decreases n - mark@.len(),
    {
        let here = mark.len() == z;
        mark.push(here);
    }
    let mut level: u8 = ZERO + 1;
    while level <= NINE
        invariant
            n == cells@.len(),
            n == w * h,
            w > 0,
            z < n,
            cells@[z as int] == ZERO,
            mark@.len() == n,
            ZERO + 1 <= level <= NINE + 1,
            forall|j: int| 0 <= j < n && (cells@[j] < level || !height_ok(cells@[j])) ==> #[trigger] mark@[j] == reached(cells@, w as int, h as int, z as int, j),
        decreases NINE + 1 - level,
    {
        let mut j: usize = 0;
        while j < n
            invariant
                n == cells@.len(),
                n == w * h,
                w > 0,
                z < n,
                cells@[z as int] == ZERO,
                mark@.len() == n,
                ZERO + 1 <= level <= NINE,
                j <= n,
                forall|k: int| 0 <= k < n && (cells@[k] < level || !height_ok(cells@[k]) || (cells@[k] == level && k < j)) ==> #[trigger] mark@[k] == reached(cells@, w as int, h as int, z as int, k),
            decreases n - j,
        {
            if cells[j] == level {
                let mut found = false;
                let mut d: usize = 0;
                while d < 4
                    invariant
                        n == cells@.len(),
                        n == w * h,
                        w > 0,
                        mark@.len() == n,
                        j < n,
                        cells@[j as int] == level,
                        ZERO + 1 <= level <= NINE,
                        d <= 4,
                        forall|k: int| 0 <= k < n && (cells@[k] < level || !height_ok(cells@[k]) || (cells@[k] == level && k < j)) ==> #[trigger] mark@[k] == reached(cells@, w as int, h as int, z as int, k),
                        found == exists|e: int| 0 <= e < d && #[trigger] steps_down(cells@, w as int, h as int, j as int, e) && reached(cells@, w as int, h as int, z as int, neighbour(w as int, h as int, j as int, e)->0),
                    decreases 4 - d,
                {
                    match neighbour_at(w, h, j, d) {
                        Some(k) => {
                            if cells[k] == level - 1 && mark[k] {
                                found = true;
                                assert(steps_down(cells@, w as int, h as int, j as int, d as int));
                            }
                        },
                        None => {},
                    }
                    d += 1;
                }
                proof {
                    assert(j != z);
                    assert(height_ok(cells@[j as int]) && cells@[j as int] != ZERO);
                    let (cv, wi, hi, zi, ji) = (cells@, w as int, h as int, z as int, j as int);
                    assert(found == reached(cv, wi, hi, zi, ji));
                }
                let ghost before = mark@;
                mark.set(j, found);
                proof {
                    assert forall|k: int| 0 <= k < n && (cells@[k] < level || !height_ok(cells@[k]) || (cells@[k] == level && k < j + 1)) implies #[trigger] mark@[k] == reached(cells@, w as int, h as int, z as int, k) by {
                        if k != j {
                            assert(before[k] == mark@[k]);
                        }
                    }
                }
            }
            j += 1;
        }
        level += 1;
    }
    mark
}

fn count_peaks(cells: &Vec<u8>, mark: &Vec<bool>, Ghost(w): Ghost<int>, Ghost(h): Ghost<int>, Ghost(z): Ghost<int>) -> (r: usize)
    requires
        mark@.len() == cells@.len(),
        forall|j: int| 0 <= j < cells@.len() ==> #[trigger] mark@[j] == reached(cells@, w, h, z, j),
    ensures
        r as nat == peaks(cells@, w, h, z, cells@.len() as int),
{
    let mut c: usize = 0;
    let mut j: usize = 0;
    while j < cells.len()
        invariant
            mark@.len() == cells@.len(),
            forall|k: int| 0 <= k < cells@.len() ==> #[trigger] mark@[k] == reached(cells@, w, h, z, k),
            j <= cells@.len(),
            c <= j,
            c as nat == peaks(cells@, w, h, z, j as int),
        decreases cells@.len() - j,
    {
        if cells[j] == NINE && mark[j] {
            c += 1;
        }
        j += 1;
    }
    c
}

proof fn lemma_total_mono(cells: Seq<u8>, w: int, h: int, k: int, m: int, rating: bool)
    requires
        k <= m,
    ensures
        trailhead_total(cells, w, h, k, rating) <= trailhead_total(cells, w, h, m, rating),
    decreases m - k,
{
    if k < m {
        lemma_total_mono(cells, w, h, k, m - 1, rating);
    }
}

/// The scores, or with `rating` the ratings, of every trailhead on the map in `input`,
/// summed; `None` where the rows differ in length or the sum does not fit in a `usize`.
pub fn trailhead_sum(input: &str, rating: bool) -> (r: Option<usize>)
    ensures
        usize_answer(r, text_grid(input.spec_bytes()) is Some, map_total(input.spec_bytes(), rating)),
{
    let (cells, w, h) = match read_grid(input.as_bytes()) {
        Some(g) => g,
        None => return None,
    };
    let n = cells.len();
    if n == 0 {
        return Some(0);
    }
    assert(w > 0) by (nonlinear_arith)
        requires
            cells@.len() == w * h,
            cells@.len() > 0,
    ;
    let table = if rating {
        trail_table(&cells, w, h)
    } else {
        Vec::new()
    };
    let mut total: usize = 0;
    let mut z: usize = 0;
    while z < n
        invariant
            n == cells@.len(),
            n == w * h,
            w > 0,
            text_grid(input.spec_bytes()) == Some((cells@, w as int, h as int)),
            rating ==> table@.len() == n,
            rating ==> forall|i: int| 0 <= i < n ==> #[trigger] table@[i] as nat == trails(cells@, w as int, h as int, i),
            z <= n,
            total as nat == trailhead_total(cells@, w as int, h as int, z as int, rating),
        decreases n - z,
    {
        if cells[z] == ZERO {
            proof {
                lemma_total_mono(cells@, w as int, h as int, z + 1, n as int, rating);
            }
            let add: u64 = if rating {
                table[z]
            } else {
                let mark = reach_marks(&cells, w, h, z);
                count_peaks(&cells, &mark, Ghost(w as int), Ghost(h as int), Ghost(z as int)) as u64
            };
            if add > usize::MAX as u64 {
                return None;
            }
            total = match total.checked_add(add as usize) {
                Some(t) => t,
                None => return None,
            };
        }
        z += 1;
    }
    Some(total)
}

/// The sum of the trailheads' scores on the map in `input`.
pub fn part_one(input: &str) -> (r: Option<usize>)
    ensures
        usize_answer(r, text_grid(input.spec_bytes()) is Some, map_total(input.spec_bytes(), false)),
{
    trailhead_sum(input, false)
}

/// The sum of the trailheads' ratings on the map in `input`.
pub fn part_two(input: &str) -> (r: Option<usize>)
    ensures
        usize_answer(r, text_grid(input.spec_bytes()) is Some, map_total(input.spec_bytes(), true)),
{
    trailhead_sum(input, true)
}

} // verus!
