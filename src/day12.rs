//! Garden plots: a grid of plant letters cut into regions, the 4-connected groups of
//! equal letters. Fencing a region costs its area times its perimeter, or, with the
//! bulk discount, its area times its number of straight sides, which equals its
//! number of corners.
use vstd::prelude::*;
use crate::grid::{neighbour, neighbour_at, read_grid, text_grid};
use crate::text::usize_answer;
use vstd::string::StringSliceAdditionalSpecFns;

verus! {

/// The cell next to `i` in direction `d` holds the same plant.
pub open spec fn same(cells: Seq<u8>, w: int, h: int, i: int, d: int) -> bool {
    match neighbour(w, h, i, d) {
        Some(j) => 0 <= j < cells.len() && cells[j] == cells[i],
        None => false,
    }
}

/// The sides of cell `i` that need a fence: those bordering another plant or the edge.
pub open spec fn fences(cells: Seq<u8>, w: int, h: int, i: int) -> nat {
    (if same(cells, w, h, i, 0) { 0nat } else { 1nat }) + (if same(cells, w, h, i, 1) {
        0nat
    } else {
        1nat
    }) + (if same(cells, w, h, i, 2) { 0nat } else { 1nat }) + (if same(cells, w, h, i, 3) {
        0nat
    } else {
        1nat
    })
}

/// The diagonal neighbour of `i`: one step in direction `dv`, then one in `dh`.
pub open spec fn diagonal_same(cells: Seq<u8>, w: int, h: int, i: int, dv: int, dh: int) -> bool {
    match neighbour(w, h, i, dv) {
        Some(j) => match neighbour(w, h, j, dh) {
            Some(k) => cells[k] == cells[i],
            None => false,
        },
        None => false,
    }
}

/// Corner (dv, dh) of cell `i` is a corner of its region: convex where neither
/// neighbour towards it holds the same plant, concave where both do but the diagonal
/// cell does not.
pub open spec fn is_corner(cells: Seq<u8>, w: int, h: int, i: int, dv: int, dh: int) -> bool {
    let a = same(cells, w, h, i, dv);
    let b = same(cells, w, h, i, dh);
    (!a && !b) || (a && b && !diagonal_same(cells, w, h, i, dv, dh))
}

/// The corners of its region that cell `i` holds.
pub open spec fn corners(cells: Seq<u8>, w: int, h: int, i: int) -> nat {
    (if is_corner(cells, w, h, i, 0, 2) { 1nat } else { 0nat }) + (if is_corner(cells, w, h, i, 0, 3) {
        1nat
    } else {
        0nat
    }) + (if is_corner(cells, w, h, i, 1, 2) { 1nat } else { 0nat }) + (if is_corner(
        cells,
        w,
        h,
        i,
        1,
        3,
    ) {
        1nat
    } else {
        0nat
    })
}

/// A labelling of the cells by region: equal plants next to each other share a label,
/// cells sharing a label hold the same plant, and each cell but its label's seed
/// has a neighbour with the same label that was reached before it, so that every
/// label is one connected region.
pub open spec fn is_region_labelling(
    cells: Seq<u8>,
    w: int,
    h: int,
    lab: Seq<usize>,
    seeds: Seq<int>,
    parent_dir: Seq<int>,
    rank: Seq<nat>,
) -> bool {
    let n = cells.len();
    &&& lab.len() == n
    &&& parent_dir.len() == n
    &&& rank.len() == n
    &&& forall|i: int| 0 <= i < n ==> #[trigger] lab[i] < seeds.len()
    &&& forall|k: int| 0 <= k < seeds.len() ==> 0 <= #[trigger] seeds[k] < n && lab[seeds[k]] == k
    &&& forall|i: int, j: int|
        0 <= i < n && 0 <= j < n && #[trigger] lab[i] == #[trigger] lab[j] ==> cells[i] == cells[j]
    &&& forall|i: int, d: int|
        0 <= i < n && 0 <= d < 4 && #[trigger] same(cells, w, h, i, d) ==> lab[neighbour(
            w,
            h,
            i,
            d,
        )->0] == lab[i]
    &&& forall|i: int|
        0 <= i < n && i != seeds[lab[i] as int] ==> {
            let d = #[trigger] parent_dir[i];
            &&& 0 <= d < 4
            &&& neighbour(w, h, i, d) is Some
            &&& lab[neighbour(w, h, i, d)->0] == lab[i]
            &&& rank[neighbour(w, h, i, d)->0] < rank[i]
        }
}

/// How many of the first `m` cells carry label `k`.
pub open spec fn area(lab: Seq<usize>, k: int, m: int) -> nat
    decreases m,
{
    if m <= 0 {
        0
    } else {
        area(lab, k, m - 1) + if lab[m - 1] == k {
            1nat
        } else {
            0nat
        }
    }
}

/// The price of the fences of the first `m` cells: each cell's fences, or corners
/// with `bulk`, times the area of its region.
pub open spec fn price(cells: Seq<u8>, w: int, h: int, lab: Seq<usize>, m: int, bulk: bool) -> nat
    decreases m,
{
    if m <= 0 {
        0
    } else {
        price(cells, w, h, lab, m - 1, bulk) + area(lab, lab[m - 1] as int, lab.len() as int) * (
        if bulk {
            corners(cells, w, h, m - 1)
        } else {
            fences(cells, w, h, m - 1)
        })
    }
}

/// The total price for the garden that `text` draws, given a labelling of its regions.
pub open spec fn garden_price(text: Seq<u8>, lab: Seq<usize>, bulk: bool) -> nat {
    let (cells, w, h) = text_grid(text)->0;
    price(cells, w, h, lab, cells.len() as int, bulk)
}

pub open spec fn opposite(d: int) -> int {
    if d == 0 {
        1
    } else if d == 1 {
        0
    } else if d == 2 {
        3
    } else {
        2
    }
}

proof fn lemma_neighbour_symmetric(w: int, h: int, i: int, d: int)
    requires
        w > 0,
        0 <= i < w * h,
        0 <= d < 4,
        neighbour(w, h, i, d) is Some,
    ensures
        neighbour(w, h, neighbour(w, h, i, d)->0, opposite(d)) == Some(i),
        0 <= neighbour(w, h, i, d)->0 < w * h,
{
    let j = neighbour(w, h, i, d)->0;
    vstd::arithmetic::div_mod::lemma_fundamental_div_mod(i, w);
    let q = i / w;
    let r = i % w;
    assert(0 <= r < w);
    if d == 0 {
        assert(j + w < w * h);
    } else if d == 1 {
        assert(j >= w);
    } else if d == 2 {
        if i == 0 {
            vstd::arithmetic::div_mod::lemma_small_mod(0nat, w as nat);
        }
        vstd::arithmetic::div_mod::lemma_fundamental_div_mod_converse(j, w, q, r - 1);
    } else {
        vstd::arithmetic::div_mod::lemma_fundamental_div_mod_converse(j, w, q, r + 1);
        assert(j < w * h) by (nonlinear_arith)
            requires
                i == w * q + r,
                r + 1 < w,
                i < w * h,
                j == i + 1,
                w > 0,
                0 <= r,
        ;
    }
}

/// Marks a cell that no flood fill has reached yet.
pub const UNSET: usize = usize::MAX;

/// What holds of the labelled cells while the flood fill runs.
pub open spec fn fill_ok(
    cells: Seq<u8>,
    w: int,
    h: int,
    lab: Seq<usize>,
    seeds: Seq<int>,
    parent_dir: Seq<int>,
    rank: Seq<nat>,
    t: nat,
) -> bool {
    let n = cells.len();
    &&& lab.len() == n
    &&& parent_dir.len() == n
    &&& rank.len() == n
    &&& forall|i: int| 0 <= i < n && #[trigger] lab[i] != UNSET ==> lab[i] < seeds.len() && rank[i] < t
    &&& forall|k: int| 0 <= k < seeds.len() ==> 0 <= #[trigger] seeds[k] < n && lab[seeds[k]] == k
    &&& forall|i: int|
        0 <= i < n && #[trigger] lab[i] != UNSET ==> cells[i] == cells[seeds[lab[i] as int]]
    &&& forall|i: int|
        0 <= i < n && lab[i] != UNSET && i != seeds[lab[i] as int] ==> {
            let d = #[trigger] parent_dir[i];
            &&& 0 <= d < 4
            &&& neighbour(w, h, i, d) is Some
            &&& lab[neighbour(w, h, i, d)->0] == lab[i]
            &&& rank[neighbour(w, h, i, d)->0] < rank[i]
        }
}

/// Every plant-equal neighbour of cell `i` carries its label.
pub open spec fn finished(cells: Seq<u8>, w: int, h: int, lab: Seq<usize>, i: int) -> bool {
    forall|d: int| 0 <= d < 4 && #[trigger] same(cells, w, h, i, d) ==> lab[neighbour(w, h, i, d)->0] == lab[i]
}

/// Cuts the grid into regions by flood fill from every cell not yet reached.
fn label_regions(cells: &Vec<u8>, w: usize, h: usize) -> (r: (Vec<usize>, usize, Ghost<Seq<int>>, Ghost<Seq<int>>, Ghost<Seq<nat>>))
    requires
        cells@.len() == w * h,
        w > 0,
    ensures
        is_region_labelling(cells@, w as int, h as int, r.0@, r.2@, r.3@, r.4@),
        r.1 == r.2@.len(),
{
    let n = cells.len();
    let mut lab: Vec<usize> = Vec::new();
    while lab.len() < n
        invariant
            lab@.len() <= n,
            forall|i: int| 0 <= i < lab@.len() ==> lab@[i] == UNSET,
        decreases n - lab@.len(),
    {
        lab.push(UNSET);
    }
    let ghost mut seeds: Seq<int> = seq![];
    let ghost mut pdir: Seq<int> = Seq::new(n as nat, |_i: int| 0int);
    let ghost mut rank: Seq<nat> = Seq::new(n as nat, |_i: int| 0nat);
    let ghost mut t: nat = 0;
    let ghost wi = w as int;
    let ghost hi = h as int;
    let mut count: usize = 0;
    let mut s: usize = 0;
    while s < n
        invariant
            n == cells@.len(),
            n == w * h,
            w > 0,
            wi == w,
            hi == h,
            s <= n,
            count == seeds.len(),
            count <= s,
            fill_ok(cells@, wi, hi, lab@, seeds, pdir, rank, t),
            forall|i: int| 0 <= i < s ==> #[trigger] lab@[i] != UNSET,
            forall|i: int| 0 <= i < n && #[trigger] lab@[i] != UNSET ==> finished(cells@, wi, hi, lab@, i),
        decreases n - s,
    {
        if lab[s] == UNSET {
            let k = count;
            let ghost old_lab = lab@;
            let ghost old_seeds = seeds;
            let ghost old_rank = rank;
            let ghost old_t = t;
            lab.set(s, k);
            proof {
                seeds = seeds.push(s as int);
                rank = rank.update(s as int, t);
                t = t + 1;
                assert forall|i: int| 0 <= i < n && #[trigger] lab@[i] != UNSET && i != s implies finished(cells@, wi, hi, lab@, i) by {
                    assert forall|d: int| 0 <= d < 4 && #[trigger] same(cells@, wi, hi, i, d) implies lab@[neighbour(wi, hi, i, d)->0] == lab@[i] by {
                        let j = neighbour(wi, hi, i, d)->0;
                        lemma_neighbour_symmetric(wi, hi, i, d);
                    }
                }
            }
            count += 1;
            proof {
                assert forall|i: int| 0 <= i < n && #[trigger] lab@[i] != UNSET implies lab@[i] < seeds.len() && rank[i] < t by {
                    if i != s {
                        assert(old_lab[i] != UNSET);
                    }
                }
                assert forall|kk: int| 0 <= kk < seeds.len() implies 0 <= #[trigger] seeds[kk] < n && lab@[seeds[kk]] == kk by {
                    if kk < old_seeds.len() {
                        assert(old_seeds[kk] == seeds[kk]);
                        assert(old_lab[old_seeds[kk]] == kk);
                    }
                }
                assert forall|i: int| 0 <= i < n && #[trigger] lab@[i] != UNSET implies cells@[i] == cells@[seeds[lab@[i] as int]] by {
                    if i != s {
                        assert(old_lab[i] != UNSET);
                        assert(old_seeds[old_lab[i] as int] == seeds[lab@[i] as int]);
                    }
                }
                assert forall|i: int| 0 <= i < n && lab@[i] != UNSET && i != seeds[lab@[i] as int] implies {
                    let d = #[trigger] pdir[i];
                    &&& 0 <= d < 4
                    &&& neighbour(wi, hi, i, d) is Some
                    &&& lab@[neighbour(wi, hi, i, d)->0] == lab@[i]
                    &&& rank[neighbour(wi, hi, i, d)->0] < rank[i]
                } by {
                    assert(i != s);
                    assert(old_lab[i] != UNSET);
                    assert(old_seeds[old_lab[i] as int] == seeds[lab@[i] as int]);
                    assert(0 <= pdir[i] < 4);
                    lemma_neighbour_symmetric(wi, hi, i, pdir[i]);
                    let p = neighbour(wi, hi, i, pdir[i])->0;
                    assert(old_lab[p] == old_lab[i]);
                    assert(p != s);
                    assert(rank[p] == old_rank[p]);
                }
                assert(fill_ok(cells@, wi, hi, lab@, seeds, pdir, rank, t));
            }
            let mut stack: Vec<usize> = Vec::new();
            stack.push(s);
            proof {
                assert(stack@[0] == s);
                assert(stack@.contains(s));
            }
            while stack.len() > 0
                invariant
                    n == cells@.len(),
                    n == w * h,
                    w > 0,
                    wi == w,
                    hi == h,
                    s < n,
                    k < count,
                    count == seeds.len(),
                    count <= s + 1,
                    fill_ok(cells@, wi, hi, lab@, seeds, pdir, rank, t),
                    forall|i: int| 0 <= i <= s ==> #[trigger] lab@[i] != UNSET,
                    forall|x: int| 0 <= x < stack@.len() ==> #[trigger] stack@[x] < n && lab@[stack@[x] as int] == k,
                    forall|i: int| 0 <= i < n && #[trigger] lab@[i] != UNSET && !stack@.contains(i as usize) ==> finished(cells@, wi, hi, lab@, i),
                decreases count_unset(lab@, n as int), stack@.len(),
            {
                let ghost u0 = count_unset(lab@, n as int);
                let ghost l0 = stack@.len();
                let ghost before_pop = stack@;
                let c = stack.pop().unwrap();
                proof {
                    lemma_pop_contains(before_pop);
                    assert(stack@ == before_pop.drop_last());
                    assert(c == before_pop.last());
                    assert forall|i: int| 0 <= i < n && #[trigger] lab@[i] != UNSET && i != c && !stack@.contains(i as usize) implies finished(cells@, wi, hi, lab@, i) by {
                        if before_pop.contains(i as usize) {
                            assert(stack@.contains(i as usize) || i == c);
                        }
                    }
                    assert(lab@[c as int] == k) by {
                        assert(before_pop[before_pop.len() - 1] == c);
                    }
                }
                let mut d: usize = 0;
                while d < 4
                    invariant
                        n == cells@.len(),
                        n == w * h,
                        w > 0,
                        wi == w,
                        hi == h,
                        s < n,
                        k < count,
                        count == seeds.len(),
                        count <= s + 1,
                        c < n,
                        lab@[c as int] == k,
                        d <= 4,
                        count_unset(lab@, n as int) <= u0,
                        count_unset(lab@, n as int) < u0 || stack@.len() < l0,
                        fill_ok(cells@, wi, hi, lab@, seeds, pdir, rank, t),
                        forall|i: int| 0 <= i <= s ==> #[trigger] lab@[i] != UNSET,
                        forall|x: int| 0 <= x < stack@.len() ==> #[trigger] stack@[x] < n && lab@[stack@[x] as int] == k,
                        forall|i: int| 0 <= i < n && #[trigger] lab@[i] != UNSET && i != c && !stack@.contains(i as usize) ==> finished(cells@, wi, hi, lab@, i),
                        forall|e: int| 0 <= e < d && #[trigger] same(cells@, wi, hi, c as int, e) ==> lab@[neighbour(wi, hi, c as int, e)->0] == k,
                    decreases 4 - d,
                {
                    match neighbour_at(w, h, c, d) {
                        Some(j) => {
                            if cells[j] == cells[c] {
                                if lab[j] == UNSET {
                                    let ghost old_lab = lab@;
                                    lab.set(j, k);
                                    proof {
                                        lemma_count_unset_update(old_lab, j as int, k, n as int);
                                        lemma_neighbour_symmetric(wi, hi, c as int, d as int);
                                        pdir = pdir.update(j as int, opposite(d as int));
                                        rank = rank.update(j as int, t);
                                        t = t + 1;
                                        assert forall|i: int| 0 <= i < n && #[trigger] lab@[i] != UNSET && i != c && i != j && !stack@.contains(i as usize) implies finished(cells@, wi, hi, lab@, i) by {
                                            assert(finished(cells@, wi, hi, old_lab, i));
                                            assert forall|e: int| 0 <= e < 4 && #[trigger] same(cells@, wi, hi, i, e) implies lab@[neighbour(wi, hi, i, e)->0] == lab@[i] by {
                                                assert(old_lab[neighbour(wi, hi, i, e)->0] == old_lab[i]);
                                            }
                                        }
                                    }
                                    let ghost before_push = stack@;
                                    proof {
                                        let p = j as int;
                                        assert(lab@[p] == k && old_lab[p] == UNSET);
                                        assert forall|i: int| 0 <= i < n && lab@[i] != UNSET && i != seeds[lab@[i] as int] implies {
                                            let d = #[trigger] pdir[i];
                                            &&& 0 <= d < 4
                                            &&& neighbour(wi, hi, i, d) is Some
                                            &&& lab@[neighbour(wi, hi, i, d)->0] == lab@[i]
                                            &&& rank[neighbour(wi, hi, i, d)->0] < rank[i]
                                        } by {
                                            if i != p {
                                                assert(old_lab[i] != UNSET);
                                                assert(0 <= pdir[i] < 4);
                                                lemma_neighbour_symmetric(wi, hi, i, pdir[i]);
                                                let q = neighbour(wi, hi, i, pdir[i])->0;
                                                assert(old_lab[q] == old_lab[i]);
                                                assert(q != p);
                                            } else {
                                                assert(neighbour(wi, hi, p, opposite(d as int)) == Some(c as int));
                                            }
                                        }
                                        assert forall|i: int| 0 <= i < n && #[trigger] lab@[i] != UNSET implies lab@[i] < seeds.len() && rank[i] < t by {
                                            if i != p {
                                                assert(old_lab[i] != UNSET);
                                            }
                                        }
                                        assert forall|i: int| 0 <= i < n && #[trigger] lab@[i] != UNSET implies cells@[i] == cells@[seeds[lab@[i] as int]] by {
                                            if i != p {
                                                assert(old_lab[i] != UNSET);
                                            }
                                        }
                                        assert forall|kk: int| 0 <= kk < seeds.len() implies 0 <= #[trigger] seeds[kk] < n && lab@[seeds[kk]] == kk by {
                                            assert(old_lab[seeds[kk]] == kk);
                                        }
                                        assert(fill_ok(cells@, wi, hi, lab@, seeds, pdir, rank, t));
                                    }
                                    stack.push(j);
                                    proof {
                                        lemma_push_contains(before_push, j);
                                        assert(stack@ == before_push.push(j));
                                        assert(stack@.last() == j);
                                        assert forall|i: int| 0 <= i < n && #[trigger] lab@[i] != UNSET && i != c && !stack@.contains(i as usize) implies finished(cells@, wi, hi, lab@, i) by {
                                            if i == j {
                                                assert(stack@.contains(j));
                                            }
                                        }
                                    }
                                } else {
                                    proof {
                                        lemma_neighbour_symmetric(wi, hi, c as int, d as int);
                                        if lab@[j as int] != k {
                                            if stack@.contains(j) {
                                                let x = choose|x: int| 0 <= x < stack@.len() && stack@[x] == j;
                                                assert(lab@[stack@[x] as int] == k);
                                            } else {
                                                assert(same(cells@, wi, hi, j as int, opposite(d as int)));
                                                assert(finished(cells@, wi, hi, lab@, j as int));
                                            }
                                        }
                                    }
                                }
                            }
                        },
                        None => {},
                    }
                    d += 1;
                }
                proof {
                    assert forall|i: int| 0 <= i < n && #[trigger] lab@[i] != UNSET && !stack@.contains(i as usize) implies finished(cells@, wi, hi, lab@, i) by {
                        if i == c {
                            assert forall|e: int| 0 <= e < 4 && #[trigger] same(cells@, wi, hi, i, e) implies lab@[neighbour(wi, hi, i, e)->0] == lab@[i] by {}
                        }
                    }
                }
            }
        }
        s += 1;
    }
    proof {
        assert(fill_ok(cells@, wi, hi, lab@, seeds, pdir, rank, t));
        assert forall|i: int, j: int|
            0 <= i < n && 0 <= j < n && #[trigger] lab@[i] == #[trigger] lab@[j] implies cells@[i] == cells@[j] by {
            assert(lab@[i] != UNSET && lab@[j] != UNSET);
        }
        assert forall|i: int, d: int|
            0 <= i < n && 0 <= d < 4 && #[trigger] same(cells@, wi, hi, i, d) implies lab@[neighbour(wi, hi, i, d)->0] == lab@[i] by {
            assert(lab@[i] != UNSET);
            assert(finished(cells@, wi, hi, lab@, i));
        }
    }
    (lab, count, Ghost(seeds), Ghost(pdir), Ghost(rank))
}

/// How many of the first `m` cells no flood fill has reached.
pub open spec fn count_unset(lab: Seq<usize>, m: int) -> nat
    decreases m,
{
    if m <= 0 {
        0
    } else {
        count_unset(lab, m - 1) + if lab[m - 1] == UNSET {
            1nat
        } else {
            0nat
        }
    }
}

proof fn lemma_push_contains(st: Seq<usize>, v: usize)
    ensures
        forall|i: usize| st.contains(i) ==> #[trigger] st.push(v).contains(i),
        st.push(v).contains(v),
{
    assert forall|i: usize| st.contains(i) implies #[trigger] st.push(v).contains(i) by {
        let x = choose|x: int| 0 <= x < st.len() && st[x] == i;
        assert(st.push(v)[x] == i);
    }
    assert(st.push(v)[st.len() as int] == v);
}

proof fn lemma_pop_contains(st: Seq<usize>)
    requires
        st.len() > 0,
    ensures
        forall|i: usize| st.contains(i) ==> #[trigger] st.drop_last().contains(i) || i == st.last(),
{
    assert forall|i: usize| st.contains(i) implies #[trigger] st.drop_last().contains(i) || i == st.last() by {
        let x = choose|x: int| 0 <= x < st.len() && st[x] == i;
        if x < st.len() - 1 {
            assert(st.drop_last()[x] == i);
        }
    }
}

proof fn lemma_count_unset_update(lab: Seq<usize>, j: int, k: usize, m: int)
    requires
        0 <= j < lab.len(),
        0 <= m <= lab.len(),
        lab[j] == UNSET,
        k != UNSET,
    ensures
        count_unset(lab.update(j, k), m) + (if j < m { 1nat } else { 0nat }) == count_unset(lab, m),
    decreases m,
{
    if m > 0 {
        lemma_count_unset_update(lab, j, k, m - 1);
    }
}


/// The number of neighbours of cell `i` holding the same plant.
pub open spec fn same_neighbours(cells: Seq<u8>, w: int, h: int, i: int) -> nat {
    (if same(cells, w, h, i, 0) { 1nat } else { 0nat }) + (if same(cells, w, h, i, 1) {
        1nat
    } else {
        0nat
    }) + (if same(cells, w, h, i, 2) { 1nat } else { 0nat }) + (if same(cells, w, h, i, 3) {
        1nat
    } else {
        0nat
    })
}

/// A cell's fences are its four sides less those shared with its own region, so a
/// region's perimeter is four times its area less twice its inner adjacencies.
pub proof fn fences_are_sides_not_shared(cells: Seq<u8>, w: int, h: int, i: int)
    ensures
        fences(cells, w, h, i) == 4 - same_neighbours(cells, w, h, i),
{
}

/// Each adjacency between equal plants is seen from both of its cells.
pub proof fn adjacency_is_mutual(cells: Seq<u8>, w: int, h: int, i: int, d: int)
    requires
        w > 0,
        cells.len() == w * h,
        0 <= i < w * h,
        0 <= d < 4,
        same(cells, w, h, i, d),
    ensures
        same(cells, w, h, neighbour(w, h, i, d)->0, opposite(d)),
{
    lemma_neighbour_symmetric(w, h, i, d);
}

fn same_at(cells: &Vec<u8>, w: usize, h: usize, i: usize, d: usize) -> (r: bool)
    requires
        w > 0,
        i < w * h,
        cells@.len() == w * h,
    ensures
        r == same(cells@, w as int, h as int, i as int, d as int),
{
    let _n = cells.len();
    match neighbour_at(w, h, i, d) {
        Some(j) => cells[j] == cells[i],
        None => false,
    }
}

fn fence_count(cells: &Vec<u8>, w: usize, h: usize, i: usize) -> (r: usize)
    requires
        w > 0,
        i < w * h,
        cells@.len() == w * h,
    ensures
        r == fences(cells@, w as int, h as int, i as int),
{
    let mut r: usize = 0;
    if !same_at(cells, w, h, i, 0) {
        r += 1;
    }
    if !same_at(cells, w, h, i, 1) {
        r += 1;
    }
    if !same_at(cells, w, h, i, 2) {
        r += 1;
    }
    if !same_at(cells, w, h, i, 3) {
        r += 1;
    }
    r
}

fn corner_at(cells: &Vec<u8>, w: usize, h: usize, i: usize, dv: usize, dh: usize) -> (r: bool)
    requires
        w > 0,
        i < w * h,
        cells@.len() == w * h,
    ensures
        r == is_corner(cells@, w as int, h as int, i as int, dv as int, dh as int),
{
    let _n = cells.len();
    let a = same_at(cells, w, h, i, dv);
    let b = same_at(cells, w, h, i, dh);
    if !a && !b {
        return true;
    }
    if !(a && b) {
        return false;
    }
    let diag = match neighbour_at(w, h, i, dv) {
        Some(j) => match neighbour_at(w, h, j, dh) {
            Some(k) => cells[k] == cells[i],
            None => false,
        },
        None => false,
    };
    !diag
}

fn corner_count(cells: &Vec<u8>, w: usize, h: usize, i: usize) -> (r: usize)
    requires
        w > 0,
        i < w * h,
        cells@.len() == w * h,
    ensures
        r == corners(cells@, w as int, h as int, i as int),
{
    let mut r: usize = 0;
    if corner_at(cells, w, h, i, 0, 2) {
        r += 1;
    }
    if corner_at(cells, w, h, i, 0, 3) {
        r += 1;
    }
    if corner_at(cells, w, h, i, 1, 2) {
        r += 1;
    }
    if corner_at(cells, w, h, i, 1, 3) {
        r += 1;
    }
    r
}

/// The area of each region.
fn region_areas(lab: &Vec<usize>, count: usize) -> (r: Vec<usize>)
    requires
        forall|i: int| 0 <= i < lab@.len() ==> #[trigger] lab@[i] < count,
    ensures
        r@.len() == count,
        forall|k: int| 0 <= k < count ==> #[trigger] r@[k] == area(lab@, k, lab@.len() as int),
{
    let mut r: Vec<usize> = Vec::new();
    while r.len() < count
        invariant
            r@.len() <= count,
            forall|k: int| 0 <= k < r@.len() ==> #[trigger] r@[k] == 0,
        decreases count - r@.len(),
    {
        r.push(0);
    }
    let mut i: usize = 0;
    while i < lab.len()
        invariant
            forall|i: int| 0 <= i < lab@.len() ==> #[trigger] lab@[i] < count,
            r@.len() == count,
            i <= lab@.len(),
            forall|k: int| 0 <= k < count ==> #[trigger] r@[k] == area(lab@, k, i as int),
            forall|k: int| 0 <= k < count ==> #[trigger] area(lab@, k, i as int) <= i,
        decreases lab@.len() - i,
    {
        let k = lab[i];
        let a = r[k];
        r.set(k, a + 1);
        proof {
            assert forall|kk: int| 0 <= kk < count implies #[trigger] r@[kk] == area(lab@, kk, i + 1) by {}
            assert forall|kk: int| 0 <= kk < count implies #[trigger] area(lab@, kk, i + 1) <= i + 1 by {
                assert(area(lab@, kk, i as int) <= i);
            }
        }
        i += 1;
    }
    r
}

proof fn lemma_price_monotone(cells: Seq<u8>, w: int, h: int, lab: Seq<usize>, k: int, m: int, bulk: bool)
    requires
        k <= m,
    ensures
        price(cells, w, h, lab, k, bulk) <= price(cells, w, h, lab, m, bulk),
    decreases m - k,
{
    if k < m {
        lemma_price_monotone(cells, w, h, lab, k, m - 1, bulk);
    }
}

/// The fence price is `v` under some labelling of the regions of the garden.
pub open spec fn region_price_is(text: Seq<u8>, bulk: bool, v: nat) -> bool {
    let (cells, w, h) = text_grid(text)->0;
    exists|lab: Seq<usize>, seeds: Seq<int>, parent_dir: Seq<int>, rank: Seq<nat>|
        #[trigger] is_region_labelling(cells, w, h, lab, seeds, parent_dir, rank) && garden_price(
            text,
            lab,
            bulk,
        ) == v
}

/// The price of fencing every region of the garden in `input`: per region, its area
/// times its perimeter, or with `bulk` times its number of sides. `None` where the
/// lines of `input` differ in length or the price does not fit in a `usize`.
pub fn fence_price(input: &str, bulk: bool) -> (r: Option<usize>)
    ensures
        match r {
            Some(v) => text_grid(input.spec_bytes()) is Some && region_price_is(
                input.spec_bytes(),
                bulk,
                v as nat,
            ),
            None => text_grid(input.spec_bytes()) is None || exists|v: nat|
                v > usize::MAX && #[trigger] region_price_is(input.spec_bytes(), bulk, v),
        },
{
    let (cells, w, h) = match read_grid(input.as_bytes()) {
        Some(g) => g,
        None => return None,
    };
    let ghost text = input.spec_bytes();
    if cells.len() == 0 {
        proof {
            let e = Seq::<usize>::empty();
            assert(is_region_labelling(cells@, w as int, h as int, e, Seq::empty(), Seq::empty(), Seq::empty()));
            assert(garden_price(text, e, bulk) == 0);
        }
        return Some(0);
    }
    assert(w > 0) by (nonlinear_arith)
        requires
            cells@.len() == w * h,
            cells@.len() > 0,
    ;
    let (lab, count, Ghost(seeds), Ghost(pdir), Ghost(rank)) = label_regions(&cells, w, h);
    let areas = region_areas(&lab, count);
    let n = cells.len();
    let mut total: usize = 0;
    let mut i: usize = 0;
    while i < n
        invariant
            n == cells@.len(),
            n == w * h,
            w > 0,
            text == input.spec_bytes(),
            text_grid(text) == Some((cells@, w as int, h as int)),
            is_region_labelling(cells@, w as int, h as int, lab@, seeds, pdir, rank),
            areas@.len() == count,
            count == seeds.len(),
            forall|k: int| 0 <= k < count ==> #[trigger] areas@[k] == area(lab@, k, lab@.len() as int),
            i <= n,
            total == price(cells@, w as int, h as int, lab@, i as int, bulk),
        decreases n - i,
    {
        let score = if bulk {
            corner_count(&cells, w, h, i)
        } else {
            fence_count(&cells, w, h, i)
        };
        let a = areas[lab[i]];
        proof {
            lemma_price_monotone(cells@, w as int, h as int, lab@, i + 1, n as int, bulk);
            assert(garden_price(text, lab@, bulk) == price(cells@, w as int, h as int, lab@, n as int, bulk));
        }
        proof {
            let v = garden_price(text, lab@, bulk);
            assert(is_region_labelling(cells@, w as int, h as int, lab@, seeds, pdir, rank));
            assert(region_price_is(text, bulk, v));
        }
        let term = match a.checked_mul(score) {
            Some(t) => t,
            None => return None,
        };
        total = match total.checked_add(term) {
            Some(t) => t,
            None => return None,
        };
        i += 1;
    }
    proof {
        let v = garden_price(text, lab@, bulk);
        assert(is_region_labelling(cells@, w as int, h as int, lab@, seeds, pdir, rank));
        assert(v == total);
        assert(region_price_is(text, bulk, v));
    }
    Some(total)
}

/// The price of fencing every region by area times perimeter.
pub fn part_one(input: &str) -> (r: Option<usize>)
    ensures
        match r {
            Some(v) => text_grid(input.spec_bytes()) is Some && region_price_is(
                input.spec_bytes(),
                false,
                v as nat,
            ),
            None => text_grid(input.spec_bytes()) is None || exists|v: nat|
                v > usize::MAX && #[trigger] region_price_is(input.spec_bytes(), false, v),
        },
{
    fence_price(input, false)
}

/// The price of fencing every region by area times number of sides.
pub fn part_two(input: &str) -> (r: Option<usize>)
    ensures
        match r {
            Some(v) => text_grid(input.spec_bytes()) is Some && region_price_is(
                input.spec_bytes(),
                true,
                v as nat,
            ),
            None => text_grid(input.spec_bytes()) is None || exists|v: nat|
                v > usize::MAX && #[trigger] region_price_is(input.spec_bytes(), true, v),
        },
{
    fence_price(input, true)
}

proof fn lemma_joins_seed(
    cells: Seq<u8>,
    w: int,
    h: int,
    l1: Seq<usize>,
    s1: Seq<int>,
    p1: Seq<int>,
    r1: Seq<nat>,
    l2: Seq<usize>,
    s2: Seq<int>,
    p2: Seq<int>,
    r2: Seq<nat>,
    i: int,
)
    requires
        w > 0,
        cells.len() == w * h,
        is_region_labelling(cells, w, h, l1, s1, p1, r1),
        is_region_labelling(cells, w, h, l2, s2, p2, r2),
        0 <= i < cells.len(),
    ensures
        l2[i] == l2[s1[l1[i] as int]],
    decreases r1[i],
{
    let k = l1[i] as int;
    if i != s1[k] {
        let d = p1[i];
        lemma_neighbour_symmetric(w, h, i, d);
        let q = neighbour(w, h, i, d)->0;
        assert(l1[q] == l1[i]);
        assert(cells[q] == cells[i]);
        assert(same(cells, w, h, i, d));
        assert(l2[q] == l2[i]);
        lemma_joins_seed(cells, w, h, l1, s1, p1, r1, l2, s2, p2, r2, q);
    }
}

proof fn lemma_same_partition(
    cells: Seq<u8>,
    w: int,
    h: int,
    l1: Seq<usize>,
    s1: Seq<int>,
    p1: Seq<int>,
    r1: Seq<nat>,
    l2: Seq<usize>,
    s2: Seq<int>,
    p2: Seq<int>,
    r2: Seq<nat>,
)
    requires
        w > 0,
        cells.len() == w * h,
        is_region_labelling(cells, w, h, l1, s1, p1, r1),
        is_region_labelling(cells, w, h, l2, s2, p2, r2),
    ensures
        forall|i: int, j: int|
            0 <= i < cells.len() && 0 <= j < cells.len() ==> (#[trigger] l1[i] == #[trigger] l1[j] <==> l2[i] == l2[j]),
{
    assert forall|i: int, j: int| 0 <= i < cells.len() && 0 <= j < cells.len() implies (#[trigger] l1[i] == #[trigger] l1[j] <==> l2[i] == l2[j]) by {
        lemma_joins_seed(cells, w, h, l1, s1, p1, r1, l2, s2, p2, r2, i);
        lemma_joins_seed(cells, w, h, l1, s1, p1, r1, l2, s2, p2, r2, j);
        lemma_joins_seed(cells, w, h, l2, s2, p2, r2, l1, s1, p1, r1, i);
        lemma_joins_seed(cells, w, h, l2, s2, p2, r2, l1, s1, p1, r1, j);
    }
}

proof fn lemma_area_equal(l1: Seq<usize>, l2: Seq<usize>, i: int, m: int)
    requires
        l1.len() == l2.len(),
        0 <= i < l1.len(),
        m <= l1.len(),
        forall|a: int, b: int| 0 <= a < l1.len() && 0 <= b < l1.len() ==> (#[trigger] l1[a] == #[trigger] l1[b] <==> l2[a] == l2[b]),
    ensures
        area(l1, l1[i] as int, m) == area(l2, l2[i] as int, m),
    decreases m,
{
    if m > 0 {
        lemma_area_equal(l1, l2, i, m - 1);
        assert(l1[m - 1] == l1[i] <==> l2[m - 1] == l2[i]);
    }
}

proof fn lemma_price_equal(cells: Seq<u8>, w: int, h: int, l1: Seq<usize>, l2: Seq<usize>, m: int, bulk: bool)
    requires
        l1.len() == l2.len(),
        m <= l1.len(),
        forall|a: int, b: int| 0 <= a < l1.len() && 0 <= b < l1.len() ==> (#[trigger] l1[a] == #[trigger] l1[b] <==> l2[a] == l2[b]),
    ensures
        price(cells, w, h, l1, m, bulk) == price(cells, w, h, l2, m, bulk),
    decreases m,
{
    if m > 0 {
        lemma_price_equal(cells, w, h, l1, l2, m - 1, bulk);
        lemma_area_equal(l1, l2, m - 1, l1.len() as int);
    }
}

/// Any two labellings of the regions cut the garden the same way, so the price does not
/// depend on which one is used: the price of a garden is well defined.
pub proof fn region_price_unique(text: Seq<u8>, bulk: bool, v1: nat, v2: nat)
    requires
        text_grid(text) is Some,
        region_price_is(text, bulk, v1),
        region_price_is(text, bulk, v2),
    ensures
        v1 == v2,
{
    let (cells, w, h) = text_grid(text)->0;
    crate::grid::lemma_text_grid_shape(text);
    let (l1, s1, p1, r1) = choose|lab: Seq<usize>, seeds: Seq<int>, parent_dir: Seq<int>, rank: Seq<nat>|
        #[trigger] is_region_labelling(cells, w, h, lab, seeds, parent_dir, rank) && garden_price(text, lab, bulk) == v1;
    let (l2, s2, p2, r2) = choose|lab: Seq<usize>, seeds: Seq<int>, parent_dir: Seq<int>, rank: Seq<nat>|
        #[trigger] is_region_labelling(cells, w, h, lab, seeds, parent_dir, rank) && garden_price(text, lab, bulk) == v2;
    if cells.len() > 0 {
        lemma_same_partition(cells, w, h, l1, s1, p1, r1, l2, s2, p2, r2);
        lemma_price_equal(cells, w, h, l1, l2, cells.len() as int, bulk);
    }
}

/// The fences of the cells with label `k` among the first `m`: the perimeter of region `k`.
pub open spec fn region_perimeter(cells: Seq<u8>, w: int, h: int, lab: Seq<usize>, k: int, m: int) -> nat
    decreases m,
{
    if m <= 0 {
        0
    } else {
        region_perimeter(cells, w, h, lab, k, m - 1) + if lab[m - 1] == k {
            fences(cells, w, h, m - 1)
        } else {
            0
        }
    }
}

/// The sides that the cells with label `k` among the first `m` share with a neighbour of
/// the same plant: every inner adjacency of region `k`, counted from both of its cells.
pub open spec fn inner_sides(cells: Seq<u8>, w: int, h: int, lab: Seq<usize>, k: int, m: int) -> nat
    decreases m,
{
    if m <= 0 {
        0
    } else {
        inner_sides(cells, w, h, lab, k, m - 1) + if lab[m - 1] == k {
            same_neighbours(cells, w, h, m - 1)
        } else {
            0
        }
    }
}

/// Under a region labelling, a neighbour sharing a side with a cell of region `k` across
/// an unfenced side lies in region `k` too.
pub proof fn shared_sides_stay_in_region(
    cells: Seq<u8>,
    w: int,
    h: int,
    lab: Seq<usize>,
    seeds: Seq<int>,
    parent_dir: Seq<int>,
    rank: Seq<nat>,
    i: int,
    d: int,
)
    requires
        is_region_labelling(cells, w, h, lab, seeds, parent_dir, rank),
        0 <= i < cells.len(),
        0 <= d < 4,
        same(cells, w, h, i, d),
    ensures
        lab[neighbour(w, h, i, d)->0] == lab[i],
{
}

/// The perimeter of a region is four sides per cell less its inner adjacencies, each
/// counted from both of its cells: `perimeter = 4·|region| − 2·adjacencies`.
pub proof fn perimeter_is_four_per_cell_less_inner_sides(cells: Seq<u8>, w: int, h: int, lab: Seq<usize>, k: int, m: int)
    requires
        0 <= m <= lab.len(),
    ensures
        region_perimeter(cells, w, h, lab, k, m) + inner_sides(cells, w, h, lab, k, m) == 4 * area(lab, k, m),
    decreases m,
{
    if m > 0 {
        perimeter_is_four_per_cell_less_inner_sides(cells, w, h, lab, k, m - 1);
        fences_are_sides_not_shared(cells, w, h, m - 1);
    }
}

} // verus!
