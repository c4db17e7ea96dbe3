//! Bytes fall onto a square memory grid one by one, each corrupting a cell. The way
//! from the top left corner to the bottom right one is measured through the cells
//! still free, with the relaxation in `paths`.
use vstd::prelude::*;
use crate::grid::{neighbour, neighbour_at};
use crate::paths::{edges_valid, shortest, shortest_distances, shortest_distances_unique, Edge, UNREACHED};
use crate::text::{ascii_chars, ascii_string, numbers, parse_numbers};
use vstd::string::StringSliceAdditionalSpecFns;

verus! {

/// Which cells of a `w` by `h` grid are still free once the first `m` bytes fell.
pub open spec fn free_cells(w: int, h: int, falls: Seq<(u32, u32)>, m: int) -> Seq<bool>
    decreases m,
{
    if m <= 0 {
        Seq::new((w * h) as nat, |_i: int| true)
    } else {
        let (x, y) = falls[m - 1];
        let before = free_cells(w, h, falls, m - 1);
        if (x as int) < w && (y as int) < h {
            before.update(y as int * w + x as int, false)
        } else {
            before
        }
    }
}

/// The steps out of cell `i` towards direction `d`, between free cells.
pub open spec fn memory_moves(free: Seq<bool>, w: int, h: int, i: int, d: int) -> Seq<Edge> {
    if !free[i] {
        seq![]
    } else {
        match neighbour(w, h, i, d) {
            Some(j) => if free[j] {
                seq![(i as usize, j as usize, 1u64)]
            } else {
                seq![]
            },
            None => seq![],
        }
    }
}

/// The steps out of the first `m` (cell, direction) pairs.
pub open spec fn memory_edges(free: Seq<bool>, w: int, h: int, m: int) -> Seq<Edge>
    decreases m,
{
    if m <= 0 {
        seq![]
    } else {
        memory_edges(free, w, h, m - 1) + memory_moves(free, w, h, (m - 1) / 4, (m - 1) % 4)
    }
}

/// `d` holds the steps from the top left corner to every cell.
pub open spec fn memory_steps(free: Seq<bool>, w: int, h: int, d: Seq<u64>) -> bool {
    shortest_distances(w * h, memory_edges(free, w, h, 4 * w * h), seq![0usize], d)
}

/// The least steps from the top left corner to the bottom right one of a `w` by `h`
/// grid once the first `m` bytes fell, where that corner can be reached.
pub open spec fn escape_is(w: int, h: int, falls: Seq<(u32, u32)>, m: int, v: u64) -> bool {
    let free = free_cells(w, h, falls, m);
    exists|d: Seq<u64>| #[trigger] memory_steps(free, w, h, d) && free[0] && d[w * h - 1] == v && v != UNREACHED
}

/// Once the first `m` bytes fell, the far corner is out of reach, or more than `u32`
/// steps away.
pub open spec fn escape_fails(w: int, h: int, falls: Seq<(u32, u32)>, m: int) -> bool {
    let free = free_cells(w, h, falls, m);
    exists|d: Seq<u64>| #[trigger] memory_steps(free, w, h, d) && (!free[0] || d[w * h - 1] == UNREACHED || d[w * h - 1] > u32::MAX)
}

/// Once the first `m` bytes fell, the far corner can still be reached.
pub open spec fn reachable_after(w: int, h: int, falls: Seq<(u32, u32)>, m: int) -> bool {
    exists|v: u64| #[trigger] escape_is(w, h, falls, m, v)
}

/// The grid fits the numbering of cells and moves.
pub open spec fn grid_fits(w: int, h: int) -> bool {
    w > 0 && h > 0 && 4 * w * h + 4 <= usize::MAX
}

proof fn lemma_fits(w: int, h: int)
    requires
        grid_fits(w, h),
    ensures
        1 <= w * h,
        4 * (w * h) == 4 * w * h,
        4 * (w * h) + 4 <= usize::MAX,
{
    assert(1 <= w * h) by (nonlinear_arith)
        requires
            w > 0,
            h > 0,
    ;
    assert(4 * (w * h) == 4 * w * h) by (nonlinear_arith);
}

proof fn lemma_free_len(w: int, h: int, falls: Seq<(u32, u32)>, m: int)
    requires
        w > 0,
        h > 0,
    ensures
        free_cells(w, h, falls, m).len() == w * h,
    decreases m,
{
    assert(w * h >= 0) by (nonlinear_arith)
        requires
            w > 0,
            h > 0,
    ;
    if m > 0 {
        lemma_free_len(w, h, falls, m - 1);
        let (x, y) = falls[m - 1];
        if (x as int) < w && (y as int) < h {
            assert((y as int) * w + (x as int) < w * h) by (nonlinear_arith)
                requires
                    (x as int) < w,
                    (y as int) < h,
                    x >= 0,
                    y >= 0,
            ;
        }
    }
}

fn mark_falls(w: usize, h: usize, falls: &Vec<(u32, u32)>, m: usize) -> (r: Vec<bool>)
    requires
        grid_fits(w as int, h as int),
        m <= falls@.len(),
    ensures
        r@ == free_cells(w as int, h as int, falls@, m as int),
        r@.len() == w * h,
{
    proof {
        lemma_fits(w as int, h as int);
        lemma_free_len(w as int, h as int, falls@, m as int);
    }
    let n = w * h;
    let mut free: Vec<bool> = Vec::new();
    while free.len() < n
        invariant
            free@.len() <= n,
            forall|i: int| 0 <= i < free@.len() ==> #[trigger] free@[i],
        decreases n - free@.len(),
    {
        free.push(true);
    }
    assert(free@ =~= free_cells(w as int, h as int, falls@, 0));
    let mut k: usize = 0;
    while k < m
        invariant
            grid_fits(w as int, h as int),
            n == w * h,
            m <= falls@.len(),
            k <= m,
            free@ == free_cells(w as int, h as int, falls@, k as int),
        decreases m - k,
    {
        proof {
            lemma_free_len(w as int, h as int, falls@, k as int);
        }
        let (x, y) = falls[k];
        if (x as usize) < w && (y as usize) < h {
            proof {
                assert((y as int) * (w as int) + (x as int) < (w as int) * (h as int)) by (nonlinear_arith)
                    requires
                        (x as int) < w,
                        (y as int) < h,
                ;
            }
            free.set(y as usize * w + x as usize, false);
        }
        k += 1;
    }
    free
}

fn build_memory_edges(free: &Vec<bool>, w: usize, h: usize) -> (r: Vec<Edge>)
    requires
        grid_fits(w as int, h as int),
        free@.len() == w * h,
    ensures
        r@ == memory_edges(free@, w as int, h as int, 4 * w * h),
        forall|k: int| 0 <= k < r@.len() ==> (#[trigger] r@[k]).0 < w * h && r@[k].1 < w * h,
{
    proof {
        lemma_fits(w as int, h as int);
    }
    let n = w * h;
    let mut edges: Vec<Edge> = Vec::new();
    let mut m: usize = 0;
    while m < 4 * n
        invariant
            grid_fits(w as int, h as int),
            n == w * h,
            4 * n + 4 <= usize::MAX,
            free@.len() == n,
            m <= 4 * n,
            edges@ == memory_edges(free@, w as int, h as int, m as int),
            forall|k: int| 0 <= k < edges@.len() ==> (#[trigger] edges@[k]).0 < n && edges@[k].1 < n,
        decreases 4 * n - m,
    {
        let i = m / 4;
        let d = m % 4;
        let ghost before = edges@;
        if free[i] {
            match neighbour_at(w, h, i, d) {
                Some(j) => {
                    if free[j] {
                        edges.push((i, j, 1));
                    }
                },
                None => {},
            }
        }
        proof {
            assert(edges@ =~= before + memory_moves(free@, w as int, h as int, i as int, d as int));
            assert forall|k: int| 0 <= k < edges@.len() implies (#[trigger] edges@[k]).0 < n && edges@[k].1 < n by {
                if k >= before.len() {
                    assert(edges@[k] == edges@.last());
                }
            }
        }
        m += 1;
    }
    assert(4 * n == 4 * w * h);
    edges
}

/// The least steps across a `x_max` by `y_max` grid once the first `max_move` bytes of
/// `falling_sequence` fell; `None` where the far corner cannot be reached, the grid is
/// empty or too large to number, or fewer bytes are listed.
pub fn solve_one(x_max: u32, y_max: u32, max_move: u32, falling_sequence: Vec<(u32, u32)>) -> (r: Option<u32>)
    ensures
        match r {
            Some(v) => grid_fits(x_max as int, y_max as int) && max_move <= falling_sequence@.len()
                && escape_is(x_max as int, y_max as int, falling_sequence@, max_move as int, v as u64),
            None => !grid_fits(x_max as int, y_max as int) || max_move > falling_sequence@.len()
                || escape_fails(x_max as int, y_max as int, falling_sequence@, max_move as int),
        },
{
    let (w, h) = (x_max as usize, y_max as usize);
    if w == 0 || h == 0 || max_move as usize > falling_sequence.len() {
        return None;
    }
    match w.checked_mul(h) {
        None => {
            assert(4 * (w as int) * (h as int) + 4 > usize::MAX) by (nonlinear_arith)
                requires
                    (w as int) * (h as int) > usize::MAX,
            ;
            return None;
        },
        Some(n) => if n > (usize::MAX - 4) / 4 {
            assert(4 * (w as int) * (h as int) + 4 > usize::MAX) by (nonlinear_arith)
                requires
                    (w as int) * (h as int) == n,
                    n > (usize::MAX - 4) / 4,
            ;
            return None;
        },
    }
    assert(grid_fits(w as int, h as int)) by {
        assert(4 * (w as int) * (h as int) == 4 * ((w as int) * (h as int))) by (nonlinear_arith);
    }
    proof {
        lemma_fits(w as int, h as int);
    }
    let free = mark_falls(w, h, &falling_sequence, max_move as usize);
    let edges = build_memory_edges(&free, w, h);
    let n = w * h;
    let sources = vec![0usize];
    let d = shortest(n, &edges, &sources);
    assert(sources@ =~= seq![0usize]);
    assert(memory_steps(free@, w as int, h as int, d@));
    let v = d[n - 1];
    if !free[0] || v == UNREACHED || v > u32::MAX as u64 {
        assert(escape_fails(x_max as int, y_max as int, falling_sequence@, max_move as int));
        return None;
    }
    Some(v as u32)
}

/// Every line of `text` holds two numbers of 32 bits.
pub open spec fn falls_valid(ls: Seq<Seq<u8>>) -> bool {
    forall|i: int| 0 <= i < ls.len() ==> {
        let p = #[trigger] parse_numbers(ls[i]);
        p is Some && p->0.len() == 2 && p->0[0] <= u32::MAX && p->0[1] <= u32::MAX
    }
}

/// The positions listed in the first `n` lines.
pub open spec fn falls_of(ls: Seq<Seq<u8>>, n: int) -> Seq<(u32, u32)>
    decreases n,
{
    if n <= 0 {
        seq![]
    } else {
        let p = parse_numbers(ls[n - 1])->0;
        falls_of(ls, n - 1).push((p[0] as u32, p[1] as u32))
    }
}

pub open spec fn text_falls(text: Seq<u8>) -> Seq<(u32, u32)> {
    falls_of(crate::text::split_lines(text), crate::text::split_lines(text).len() as int)
}

fn read_falls(input: &str) -> (r: Option<Vec<(u32, u32)>>)
    ensures
        match r {
            Some(f) => falls_valid(crate::text::split_lines(input.spec_bytes())) && f@ == text_falls(input.spec_bytes()),
            None => !falls_valid(crate::text::split_lines(input.spec_bytes())),
        },
{
    let ls = crate::text::lines(input.as_bytes());
    let ghost lv = crate::text::views(ls@);
    let mut f: Vec<(u32, u32)> = Vec::new();
    let mut i: usize = 0;
    while i < ls.len()
        invariant
            lv == crate::text::views(ls@),
            lv == crate::text::split_lines(input.spec_bytes()),
            i <= lv.len(),
            forall|j: int| 0 <= j < i ==> {
                let p = #[trigger] parse_numbers(lv[j]);
                p is Some && p->0.len() == 2 && p->0[0] <= u32::MAX && p->0[1] <= u32::MAX
            },
            f@ == falls_of(lv, i as int),
        decreases lv.len() - i,
    {
        assert(ls@[i as int]@ == lv[i as int]);
        let nums = match numbers(ls[i].as_slice()) {
            Some(n) => n,
            None => return None,
        };
        if nums.len() != 2 || nums[0] > u32::MAX as u64 || nums[1] > u32::MAX as u64 {
            return None;
        }
        f.push((nums[0] as u32, nums[1] as u32));
        i += 1;
    }
    Some(f)
}

/// The steps across the 71 by 71 grid once the first 1024 bytes listed in `input`
/// fell; `None` where a line is not a position, fewer bytes are listed, or the far
/// corner cannot be reached.
pub fn part_one(input: &str) -> (r: Option<u32>)
    ensures
        match r {
            Some(v) => falls_valid(crate::text::split_lines(input.spec_bytes())) && escape_is(71, 71, text_falls(input.spec_bytes()), 1024, v as u64),
            None => !falls_valid(crate::text::split_lines(input.spec_bytes())) || text_falls(input.spec_bytes()).len() < 1024
                || escape_fails(71, 71, text_falls(input.spec_bytes()), 1024),
        },
{
    let falls = match read_falls(input) {
        Some(f) => f,
        None => return None,
    };
    proof {
        assert(grid_fits(71, 71));
    }
    solve_one(71, 71, 1024, falls)
}

/// The decimal digits of `v`.
pub open spec fn decimal(v: nat) -> Seq<u8>
    decreases v,
{
    if v < 10 {
        seq![(48 + v) as u8]
    } else {
        decimal(v / 10).push((48 + v % 10) as u8)
    }
}

fn push_decimal(out: &mut Vec<u8>, v: u32)
    ensures
        final(out)@ == old(out)@ + decimal(v as nat),
    decreases v,
{
    if v >= 10 {
        push_decimal(out, v / 10);
    }
    let ghost mid = out@;
    out.push((48 + v % 10) as u8);
    proof {
        if v >= 10 {
            assert(out@ =~= old(out)@ + decimal(v as nat));
        } else {
            assert(out@ =~= old(out)@ + decimal(v as nat));
        }
    }
}

proof fn lemma_decimal_ascii(v: nat)
    ensures
        forall|i: int| 0 <= i < decimal(v).len() ==> #[trigger] decimal(v)[i] < 128,
    decreases v,
{
    if v >= 10 {
        lemma_decimal_ascii(v / 10);
        let d = decimal(v);
        assert forall|i: int| 0 <= i < d.len() implies #[trigger] d[i] < 128 by {
            if i < d.len() - 1 {
                assert(d[i] == decimal(v / 10)[i]);
            }
        }
    }
}

/// A position written as `x,y`.
pub open spec fn position_text(p: (u32, u32)) -> Seq<u8> {
    decimal(p.0 as nat) + seq![44u8] + decimal(p.1 as nat)
}

/// The first byte, among those listed in `input`, after whose fall the far corner of an
/// `x_max` by `y_max` grid cannot be reached, written `x,y`; `None` where a line is not
/// a position, the grid is empty or too large, or the corner stays reachable.
pub fn wrapped_two(input: &str, x_max: u32, y_max: u32) -> (r: Option<String>)
    ensures
        r matches Some(s) ==> falls_valid(crate::text::split_lines(input.spec_bytes())) && exists|m: int|
            1 <= m <= text_falls(input.spec_bytes()).len() && #[trigger] escape_fails(
                x_max as int,
                y_max as int,
                text_falls(input.spec_bytes()),
                m,
            ) && (forall|k: int|
                1 <= k < m ==> #[trigger] reachable_after(x_max as int, y_max as int, text_falls(input.spec_bytes()), k))
                && s@ == ascii_chars(position_text(text_falls(input.spec_bytes())[m - 1])),
{
    let falls = match read_falls(input) {
        Some(f) => f,
        None => return None,
    };
    let ghost fv = falls@;
    let mut m: usize = 0;
    while m < falls.len()
        invariant
            fv == falls@,
            fv == text_falls(input.spec_bytes()),
            falls_valid(crate::text::split_lines(input.spec_bytes())),
            m <= fv.len(),
            forall|k: int| 1 <= k <= m ==> #[trigger] reachable_after(x_max as int, y_max as int, fv, k),
        decreases fv.len() - m,
    {
        let next = m + 1;
        if next > u32::MAX as usize {
            return None;
        }
        match solve_one(x_max, y_max, next as u32, copy_falls(&falls)) {
            Some(v) => {
                assert(escape_is(x_max as int, y_max as int, fv, next as int, v as u64));
                assert(reachable_after(x_max as int, y_max as int, fv, next as int));
            },
            None => {
                if x_max == 0 || y_max == 0 {
                    return None;
                }
                match (x_max as usize).checked_mul(y_max as usize) {
                    None => return None,
                    Some(n) => if n > (usize::MAX - 4) / 4 {
                        return None;
                    },
                }
                proof {
                    assert(grid_fits(x_max as int, y_max as int)) by {
                        assert(4 * (x_max as int) * (y_max as int) == 4 * ((x_max as int) * (y_max as int))) by (nonlinear_arith);
                    }
                }
                let (x, y) = falls[m];
                let mut out: Vec<u8> = Vec::new();
                push_decimal(&mut out, x);
                out.push(44);
                push_decimal(&mut out, y);
                proof {
                    lemma_decimal_ascii(x as nat);
                    lemma_decimal_ascii(y as nat);
                    let t = position_text(fv[next - 1]);
                    assert(out@ =~= t);
                    assert forall|i: int| 0 <= i < out@.len() implies #[trigger] out@[i] < 128 by {
                        let dx = decimal(x as nat);
                        if i < dx.len() {
                            assert(out@[i] == dx[i]);
                        } else if i > dx.len() {
                            assert(out@[i] == decimal(y as nat)[i - dx.len() - 1]);
                        }
                    }
                    assert(escape_fails(x_max as int, y_max as int, fv, next as int));
                }
                return Some(ascii_string(out));
            },
        }
        m = next;
    }
    None
}

fn copy_falls(f: &Vec<(u32, u32)>) -> (r: Vec<(u32, u32)>)
    ensures
        r@ == f@,
{
    let mut r: Vec<(u32, u32)> = Vec::new();
    let mut i: usize = 0;
    while i < f.len()
        invariant
            i <= f@.len(),
            r@ == f@.subrange(0, i as int),
        decreases f@.len() - i,
    {
        r.push(f[i]);
        i += 1;
        assert(r@ =~= f@.subrange(0, i as int));
    }
    assert(r@ =~= f@);
    r
}

/// The first byte that cuts the 71 by 71 grid, written `x,y`.
pub fn part_two(input: &str) -> (r: Option<String>)
    ensures
        r matches Some(s) ==> falls_valid(crate::text::split_lines(input.spec_bytes())) && exists|m: int|
            1 <= m <= text_falls(input.spec_bytes()).len() && #[trigger] escape_fails(71, 71, text_falls(input.spec_bytes()), m)
                && (forall|k: int| 1 <= k < m ==> #[trigger] reachable_after(71, 71, text_falls(input.spec_bytes()), k))
                && s@ == ascii_chars(position_text(text_falls(input.spec_bytes())[m - 1])),
{
    wrapped_two(input, 71, 71)
}

proof fn lemma_memory_edges_ok(free: Seq<bool>, w: int, h: int, m: int)
    requires
        w > 0,
        h > 0,
        free.len() == w * h,
        0 <= m <= 4 * w * h,
    ensures
        forall|e: int| 0 <= e < memory_edges(free, w, h, m).len() ==> (#[trigger] memory_edges(free, w, h, m)[e]).2 >= 1
            && memory_edges(free, w, h, m)[e].0 < w * h && memory_edges(free, w, h, m)[e].1 < w * h,
    decreases m,
{
    if m > 0 {
        lemma_memory_edges_ok(free, w, h, m - 1);
        let prev = memory_edges(free, w, h, m - 1);
        let i = (m - 1) / 4;
        let d = (m - 1) % 4;
        assert(4 * w * h == 4 * (w * h)) by (nonlinear_arith);
        assert(i < w * h);
        let mv = memory_moves(free, w, h, i, d);
        if neighbour(w, h, i, d) is Some {
            crate::grid::lemma_neighbour_in_grid(w, h, i, d);
        }
        assert forall|e: int| 0 <= e < memory_edges(free, w, h, m).len() implies (#[trigger] memory_edges(free, w, h, m)[e]).2 >= 1
            && memory_edges(free, w, h, m)[e].0 < w * h && memory_edges(free, w, h, m)[e].1 < w * h by {
            if e >= prev.len() {
                assert(memory_edges(free, w, h, m)[e] == mv[e - prev.len()]);
            }
        }
    }
}

/// The steps across the memory grid are one table: the escape length is well defined.
pub proof fn memory_steps_unique(w: int, h: int, falls: Seq<(u32, u32)>, m: int, d1: Seq<u64>, d2: Seq<u64>)
    requires
        grid_fits(w, h),
        memory_steps(free_cells(w, h, falls, m), w, h, d1),
        memory_steps(free_cells(w, h, falls, m), w, h, d2),
    ensures
        d1 == d2,
{
    let free = free_cells(w, h, falls, m);
    lemma_fits(w, h);
    lemma_free_len(w, h, falls, m);
    lemma_memory_edges_ok(free, w, h, 4 * w * h);
    assert(edges_valid(w * h, memory_edges(free, w, h, 4 * w * h)));
    shortest_distances_unique(w * h, memory_edges(free, w, h, 4 * w * h), seq![0usize], d1, d2);
}

} // verus!
