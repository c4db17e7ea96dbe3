//! Shortest distances in a weighted directed graph with non-negative weights, by
//! relaxing every edge until nothing changes. The result meets Bellman's conditions:
//! sources are at 0, no edge offers a shortcut, and every other finite distance is
//! reached through some edge.
use vstd::prelude::*;

verus! {

/// The distance of a node that no source reaches.
pub const UNREACHED: u64 = 0xffff_ffff_ffff_ffff;

/// An edge from `.0` to `.1` of weight `.2`.
pub type Edge = (usize, usize, u64);

pub open spec fn is_source(sources: Seq<usize>, v: int) -> bool {
    exists|k: int| 0 <= k < sources.len() && sources[k] == v
}

/// No edge leads to a node more cheaply than its distance.
pub open spec fn no_shortcut(d: Seq<u64>, edges: Seq<Edge>, e: int) -> bool {
    let (p, s, w) = edges[e];
    d[p as int] == UNREACHED || d[s as int] as nat <= d[p as int] as nat + w as nat
}

/// Edge `e` ends at `v` and accounts for its distance.
pub open spec fn reached_by(d: Seq<u64>, edges: Seq<Edge>, v: int, e: int) -> bool {
    let (p, s, w) = edges[e];
    &&& s == v
    &&& d[p as int] != UNREACHED
    &&& d[v] as nat == d[p as int] as nat + w as nat
}

/// `d` holds the shortest distances from `sources` over `edges` among `n` nodes.
pub open spec fn shortest_distances(n: int, edges: Seq<Edge>, sources: Seq<usize>, d: Seq<u64>) -> bool {
    &&& d.len() == n
    &&& forall|k: int| 0 <= k < sources.len() ==> d[#[trigger] sources[k] as int] == 0
    &&& forall|e: int| 0 <= e < edges.len() ==> #[trigger] no_shortcut(d, edges, e)
    &&& forall|v: int|
        0 <= v < n && d[v] != UNREACHED && !is_source(sources, v) ==> exists|e: int|
            0 <= e < edges.len() && #[trigger] reached_by(d, edges, v, e)
}

pub open spec fn edges_valid(n: int, edges: Seq<Edge>) -> bool {
    forall|e: int| 0 <= e < edges.len() ==> (#[trigger] edges[e]).0 < n && edges[e].1 < n
}

pub open spec fn total(d: Seq<u64>, m: int) -> nat
    decreases m,
{
    if m <= 0 {
        0
    } else {
        total(d, m - 1) + d[m - 1] as nat
    }
}

proof fn lemma_total_decreases(d: Seq<u64>, i: int, x: u64, m: int)
    requires
        0 <= i < d.len(),
        0 <= m <= d.len(),
        x <= d[i],
    ensures
        total(d.update(i, x), m) + (if i < m { d[i] as nat - x as nat } else { 0 }) == total(d, m),
    decreases m,
{
    if m > 0 {
        lemma_total_decreases(d, i, x, m - 1);
    }
}

/// What holds between passes: sources at 0, and each other finite distance at least
/// what the edge that set it offers now.
pub open spec fn relax_ok(n: int, edges: Seq<Edge>, sources: Seq<usize>, d: Seq<u64>, pred: Seq<int>) -> bool {
    &&& d.len() == n
    &&& pred.len() == n
    &&& forall|k: int| 0 <= k < sources.len() ==> d[#[trigger] sources[k] as int] == 0
    &&& forall|v: int|
        0 <= v < n && d[v] != UNREACHED && !is_source(sources, v) ==> {
            let e = #[trigger] pred[v];
            &&& 0 <= e < edges.len()
            &&& edges[e].1 == v
            &&& d[edges[e].0 as int] != UNREACHED
            &&& d[v] as nat >= d[edges[e].0 as int] as nat + edges[e].2 as nat
        }
}

/// The shortest distances from `sources` to every one of `n` nodes.
pub fn shortest(n: usize, edges: &Vec<Edge>, sources: &Vec<usize>) -> (d: Vec<u64>)
    requires
        edges_valid(n as int, edges@),
        forall|k: int| 0 <= k < sources@.len() ==> #[trigger] sources@[k] < n,
    ensures
        shortest_distances(n as int, edges@, sources@, d@),
{
    let mut d: Vec<u64> = Vec::new();
    while d.len() < n
        invariant
            d@.len() <= n,
            forall|i: int| 0 <= i < d@.len() ==> #[trigger] d@[i] == UNREACHED,
        decreases n - d@.len(),
    {
        d.push(UNREACHED);
    }
    let ghost mut pred: Seq<int> = Seq::new(n as nat, |_i: int| 0int);
    let mut k: usize = 0;
    while k < sources.len()
        invariant
            d@.len() == n,
            pred.len() == n,
            forall|j: int| 0 <= j < sources@.len() ==> #[trigger] sources@[j] < n,
            k <= sources@.len(),
            forall|j: int| 0 <= j < k ==> d@[#[trigger] sources@[j] as int] == 0,
            forall|v: int| 0 <= v < n && #[trigger] d@[v] != UNREACHED ==> d@[v] == 0 && is_source(sources@, v),
        decreases sources@.len() - k,
    {
        d.set(sources[k], 0);
        proof {
            assert forall|v: int| 0 <= v < n && #[trigger] d@[v] != UNREACHED implies d@[v] == 0 && is_source(sources@, v) by {
                if v == sources@[k as int] {
                    assert(sources@[k as int] == v);
                }
            }
        }
        k += 1;
    }
    let mut changed = true;
    while changed
        invariant
            edges_valid(n as int, edges@),
            forall|j: int| 0 <= j < sources@.len() ==> #[trigger] sources@[j] < n,
            relax_ok(n as int, edges@, sources@, d@, pred),
            !changed ==> forall|e: int| 0 <= e < edges@.len() ==> #[trigger] no_shortcut(d@, edges@, e),
        decreases total(d@, n as int) + if changed { 1nat } else { 0nat },
    {
        changed = false;
        let ghost start_total = total(d@, n as int);
        let mut e: usize = 0;
        while e < edges.len()
            invariant
                edges_valid(n as int, edges@),
                forall|j: int| 0 <= j < sources@.len() ==> #[trigger] sources@[j] < n,
                relax_ok(n as int, edges@, sources@, d@, pred),
                e <= edges@.len(),
                total(d@, n as int) <= start_total,
                changed ==> total(d@, n as int) < start_total,
                !changed ==> forall|f: int| 0 <= f < e ==> #[trigger] no_shortcut(d@, edges@, f),
            decreases edges@.len() - e,
        {
            let (p, s, w) = edges[e];
            let dp = d[p];
            if dp != UNREACHED {
                match dp.checked_add(w) {
                    Some(c) => {
                        if c < d[s] {
                            let ghost old_d = d@;
                            proof {
                                lemma_total_decreases(d@, s as int, c, n as int);
                            }
                            d.set(s, c);
                            proof {
                                pred = pred.update(s as int, e as int);
                                assert forall|k: int| 0 <= k < sources@.len() implies d@[#[trigger] sources@[k] as int] == 0 by {
                                    assert(old_d[sources@[k] as int] == 0);
                                }
                                assert forall|v: int| 0 <= v < n && d@[v] != UNREACHED && !is_source(sources@, v) implies {
                                    let e = #[trigger] pred[v];
                                    &&& 0 <= e < edges@.len()
                                    &&& edges@[e].1 == v
                                    &&& d@[edges@[e].0 as int] != UNREACHED
                                    &&& d@[v] as nat >= d@[edges@[e].0 as int] as nat + edges@[e].2 as nat
                                } by {
                                    if v != s {
                                        assert(old_d[v] != UNREACHED);
                                        let q = edges@[pred[v]].0 as int;
                                        assert(old_d[q] != UNREACHED);
                                    }
                                }
                            }
                            changed = true;
                        }
                    },
                    None => {},
                }
            }
            e += 1;
        }
    }
    proof {
        assert forall|v: int|
            0 <= v < n && d@[v] != UNREACHED && !is_source(sources@, v) implies exists|e: int|
                0 <= e < edges@.len() && #[trigger] reached_by(d@, edges@, v, e) by {
            let e = pred[v];
            assert(no_shortcut(d@, edges@, e));
            assert(reached_by(d@, edges@, v, e));
        }
    }
    d
}

proof fn lemma_below(n: int, edges: Seq<Edge>, sources: Seq<usize>, d1: Seq<u64>, d2: Seq<u64>, k: nat)
    requires
        edges_valid(n, edges),
        forall|e: int| 0 <= e < edges.len() ==> (#[trigger] edges[e]).2 >= 1,
        shortest_distances(n, edges, sources, d1),
        shortest_distances(n, edges, sources, d2),
    ensures
        forall|v: int| 0 <= v < n && d2[v] as nat <= k ==> #[trigger] d1[v] <= d2[v],
    decreases k,
{
    if k > 0 {
        lemma_below(n, edges, sources, d1, d2, (k - 1) as nat);
    }
    assert forall|v: int| 0 <= v < n && d2[v] as nat <= k implies #[trigger] d1[v] <= d2[v] by {
        if d2[v] != UNREACHED {
            if is_source(sources, v) {
                let j = choose|j: int| 0 <= j < sources.len() && sources[j] == v;
                assert(d1[sources[j] as int] == 0);
            } else {
                let e = choose|e: int| 0 <= e < edges.len() && #[trigger] reached_by(d2, edges, v, e);
                let (p, s, w) = edges[e];
                assert(d2[p as int] < d2[v]);
                assert(d1[p as int] <= d2[p as int]);
                assert(no_shortcut(d1, edges, e));
            }
        }
    }
}

/// With every weight at least 1, the distances that meet Bellman's conditions are
/// unique: they are the shortest distances.
pub proof fn shortest_distances_unique(n: int, edges: Seq<Edge>, sources: Seq<usize>, d1: Seq<u64>, d2: Seq<u64>)
    requires
        edges_valid(n, edges),
        forall|e: int| 0 <= e < edges.len() ==> (#[trigger] edges[e]).2 >= 1,
        shortest_distances(n, edges, sources, d1),
        shortest_distances(n, edges, sources, d2),
    ensures
        d1 == d2,
{
    lemma_below(n, edges, sources, d1, d2, u64::MAX as nat);
    lemma_below(n, edges, sources, d2, d1, u64::MAX as nat);
    assert forall|v: int| 0 <= v < n implies d1[v] == d2[v] by {
        assert(d1[v] <= d2[v]);
        assert(d2[v] <= d1[v]);
    }
    assert(d1 =~= d2);
}

} // verus!
