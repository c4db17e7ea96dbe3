//! Rectangular grids of bytes, stored row after row in one sequence.
use vstd::prelude::*;
use crate::text::{lines, split_lines, views};

verus! {

/// All rows have width `w`.
pub open spec fn rectangular(rows: Seq<Seq<u8>>, w: int) -> bool {
    forall|i: int| 0 <= i < rows.len() ==> #[trigger] rows[i].len() == w
}

/// The rows one after another.
pub open spec fn flatten(rows: Seq<Seq<u8>>) -> Seq<u8>
    decreases rows.len(),
{
    if rows.len() == 0 {
        seq![]
    } else {
        flatten(rows.drop_last()) + rows.last()
    }
}

/// The grid that `text` draws: its cells row after row, its width and its height;
/// `None` where its lines differ in length.
pub open spec fn text_grid(text: Seq<u8>) -> Option<(Seq<u8>, int, int)> {
    let rows = split_lines(text);
    let w = if rows.len() == 0 {
        0
    } else {
        rows[0].len() as int
    };
    if rectangular(rows, w) {
        Some((flatten(rows), w, rows.len() as int))
    } else {
        None
    }
}

proof fn lemma_flatten_len(rows: Seq<Seq<u8>>, w: int)
    requires
        rectangular(rows, w),
        w >= 0,
    ensures
        flatten(rows).len() == rows.len() * w,
    decreases rows.len(),
{
    if rows.len() > 0 {
        assert(rectangular(rows.drop_last(), w));
        lemma_flatten_len(rows.drop_last(), w);
        assert(rows.len() * w == (rows.len() - 1) * w + w) by (nonlinear_arith);
    }
}

/// Reads the grid that `s` draws.
pub fn read_grid(s: &[u8]) -> (r: Option<(Vec<u8>, usize, usize)>)
    ensures
        match r {
            Some((cells, w, h)) => text_grid(s@) == Some((cells@, w as int, h as int)) && cells@.len()
                == w * h,
            None => text_grid(s@) is None,
        },
{
    let rows = lines(s);
    let ghost rv = views(rows@);
    let w: usize = if rows.len() == 0 {
        0
    } else {
        rows[0].len()
    };
    let mut cells: Vec<u8> = Vec::new();
    let mut i: usize = 0;
    while i < rows.len()
        invariant
            rv == views(rows@),
            rv == split_lines(s@),
            w == (if rv.len() == 0 {
                0
            } else {
                rv[0].len() as int
            }),
            i <= rv.len(),
            rectangular(rv.subrange(0, i as int), w as int),
            cells@ == flatten(rv.subrange(0, i as int)),
        decreases rv.len() - i,
    {
        let row = &rows[i];
        if row.len() != w {
            assert(rv[i as int].len() != w);
            return None;
        }
        let mut j: usize = 0;
        let ghost before = cells@;
        while j < row.len()
            invariant
                j <= row@.len(),
                cells@ == before + row@.subrange(0, j as int),
            decreases row@.len() - j,
        {
            cells.push(row[j]);
            j += 1;
            assert(cells@ =~= before + row@.subrange(0, j as int));
        }
        proof {
            let sub = rv.subrange(0, i + 1);
            assert(sub.drop_last() =~= rv.subrange(0, i as int));
            assert(row@.subrange(0, j as int) =~= row@);
            assert(sub.last() == row@);
        }
        i += 1;
    }
    proof {
        assert(rv.subrange(0, rv.len() as int) =~= rv);
        assert(rectangular(rv, w as int));
        assert(cells@ == flatten(rv));
        lemma_flatten_len(rv, w as int);
        assert(rv.len() * w == w * rv.len()) by (nonlinear_arith);
        assert(text_grid(s@) == Some((cells@, w as int, rows.len() as int)));
    }
    Some((cells, w, rows.len()))
}

/// The cell next to cell `i` in direction `d` (up, down, left, right), if any.
pub open spec fn neighbour(w: int, h: int, i: int, d: int) -> Option<int> {
    if d == 0 {
        if i >= w {
            Some(i - w)
        } else {
            None
        }
    } else if d == 1 {
        if i + w < w * h {
            Some(i + w)
        } else {
            None
        }
    } else if d == 2 {
        if i % w != 0 {
            Some(i - 1)
        } else {
            None
        }
    } else {
        if i % w != w - 1 {
            Some(i + 1)
        } else {
            None
        }
    }
}

pub fn neighbour_at(w: usize, h: usize, i: usize, d: usize) -> (r: Option<usize>)
    requires
        w > 0,
        i < w * h,
        w * h <= usize::MAX,
    ensures
        match r {
            Some(j) => neighbour(w as int, h as int, i as int, d as int) == Some(j as int) && j < w * h,
            None => neighbour(w as int, h as int, i as int, d as int) is None,
        },
{
    if d == 0 {
        if i >= w {
            Some(i - w)
        } else {
            None
        }
    } else if d == 1 {
        let n = w * h;
        if n - i > w {
            Some(i + w)
        } else {
            None
        }
    } else if d == 2 {
        if i % w != 0 {
            proof {
                if i == 0 {
                    assert(0usize % w == 0) by (nonlinear_arith)
                        requires
                            w > 0,
                    ;
                }
            }
            Some(i - 1)
        } else {
            None
        }
    } else {
        if i % w != w - 1 {
            proof {
                assert(i % w < w - 1);
                assert(i + 1 < w * h) by (nonlinear_arith)
                    requires
                        i < w * h,
                        i % w < w - 1,
                        w > 0,
                ;
            }
            Some(i + 1)
        } else {
            None
        }
    }
}

/// A neighbour lies on the grid.
pub proof fn lemma_neighbour_in_grid(w: int, h: int, i: int, d: int)
    requires
        w > 0,
        0 <= i < w * h,
        0 <= d < 4,
        neighbour(w, h, i, d) is Some,
    ensures
        0 <= neighbour(w, h, i, d)->0 < w * h,
{
    if d >= 2 {
        vstd::arithmetic::div_mod::lemma_fundamental_div_mod(i, w);
        let q = i / w;
        let r = i % w;
        if d == 2 {
            if i == 0 {
                vstd::arithmetic::div_mod::lemma_small_mod(0nat, w as nat);
            }
        } else {
            assert(r != w - 1);
            assert(i + 1 < w * h) by (nonlinear_arith)
                requires
                    i == w * q + r,
                    0 <= r < w - 1,
                    i < w * h,
                    w > 0,
            ;
        }
    }
}

/// The grid of a text holds width times height cells, and has a positive width where
/// it has any cell.
pub proof fn lemma_text_grid_shape(text: Seq<u8>)
    requires
        text_grid(text) is Some,
    ensures
        ({
            let (cells, w, h) = text_grid(text)->0;
            &&& w >= 0
            &&& h >= 0
            &&& cells.len() == w * h
            &&& cells.len() > 0 ==> w > 0
        }),
{
    let rows = split_lines(text);
    let w = if rows.len() == 0 {
        0
    } else {
        rows[0].len() as int
    };
    lemma_flatten_len(rows, w);
    assert(rows.len() * w == w * rows.len()) by (nonlinear_arith);
    if flatten(rows).len() > 0 {
        assert(w > 0) by (nonlinear_arith)
            requires
                flatten(rows).len() == w * rows.len(),
                flatten(rows).len() > 0,
                w >= 0,
        ;
    }
}

} // verus!
