//! Typing door codes through a chain of robots, each steered from a directional pad.
//!
//! The numeric pad is laid out as `789 / 456 / 123 / _0A` and the directional pad
//! as `_^A / <v>`, where `_` is a gap that no arm may pass over. Every arm starts on
//! `A`, and every button press at one level is an `A` at the level above, so the
//! cost of a sequence splits into independent fragments that each end in `A`.
use vstd::prelude::*;
use crate::text::{lines, split_lines, usize_answer, views};
use vstd::string::StringSliceAdditionalSpecFns;

verus! {

pub const KEY_A: u8 = 65;
pub const DIGIT_0: u8 = 48;
pub const DIGIT_1: u8 = 49;
pub const DIGIT_9: u8 = 57;
pub const UP: u8 = 94;
pub const DOWN: u8 = 118;
pub const LEFT: u8 = 60;
pub const RIGHT: u8 = 62;

/// A button of the numeric pad.
pub open spec fn num_key(b: u8) -> bool {
    (DIGIT_0 <= b && b <= DIGIT_9) || b == KEY_A
}

pub open spec fn num_col(b: u8) -> int {
    if b == DIGIT_0 {
        1
    } else if b == KEY_A {
        2
    } else {
        (b as int - DIGIT_1 as int) % 3
    }
}

pub open spec fn num_row(b: u8) -> int {
    if b == DIGIT_0 || b == KEY_A {
        3
    } else {
        2 - (b as int - DIGIT_1 as int) / 3
    }
}

/// A button of the directional pad.
pub open spec fn dir_key(b: u8) -> bool {
    b == UP || b == KEY_A || b == LEFT || b == DOWN || b == RIGHT
}

pub open spec fn dir_col(b: u8) -> int {
    if b == LEFT {
        0
    } else if b == UP || b == DOWN {
        1
    } else {
        2
    }
}

pub open spec fn dir_row(b: u8) -> int {
    if b == UP || b == KEY_A {
        0
    } else {
        1
    }
}

/// The horizontal presses that move an arm `dx` columns.
pub open spec fn horizontal(dx: int) -> Seq<u8> {
    if dx < 0 {
        Seq::new((-dx) as nat, |_i: int| LEFT)
    } else {
        Seq::new(dx as nat, |_i: int| RIGHT)
    }
}

/// The vertical presses that move an arm `dy` rows.
pub open spec fn vertical(dy: int) -> Seq<u8> {
    if dy < 0 {
        Seq::new((-dy) as nat, |_i: int| UP)
    } else {
        Seq::new(dy as nat, |_i: int| DOWN)
    }
}

/// Whether the horizontal moves go first on the way from (fx, fy) to (tx, ty): when
/// moving left they do, else the vertical ones do; in both cases the order flips
/// where its corner would be the gap at (gx, gy).
pub open spec fn horizontal_first(fx: int, fy: int, tx: int, ty: int, gx: int, gy: int) -> bool {
    if tx < fx {
        !(tx == gx && fy == gy)
    } else {
        fx == gx && ty == gy
    }
}

/// The presses that move an arm from (fx, fy) to (tx, ty) and then press there.
pub open spec fn path(fx: int, fy: int, tx: int, ty: int, gx: int, gy: int) -> Seq<u8> {
    let h = horizontal(tx - fx);
    let v = vertical(ty - fy);
    if horizontal_first(fx, fy, tx, ty, gx, gy) {
        (h + v).push(KEY_A)
    } else {
        (v + h).push(KEY_A)
    }
}

/// Directional presses that make the numeric arm go from `a` to `b` and press it.
pub open spec fn num_moves(a: u8, b: u8) -> Seq<u8> {
    path(num_col(a), num_row(a), num_col(b), num_row(b), 0, 3)
}

/// Directional presses that make a directional arm go from `a` to `b` and press it.
pub open spec fn dir_moves(a: u8, b: u8) -> Seq<u8> {
    path(dir_col(a), dir_row(a), dir_col(b), dir_row(b), 0, 0)
}

/// The presses a person makes so that, through `depth` robots on directional pads,
/// the last directional arm, standing on `prev`, types `s`.
pub open spec fn cost_from(prev: u8, s: Seq<u8>, depth: nat) -> nat
    decreases depth, s.len(),
{
    if depth == 0 {
        s.len()
    } else if s.len() == 0 {
        0
    } else {
        cost_from(KEY_A, dir_moves(prev, s[0]), (depth - 1) as nat) + cost_from(
            s[0],
            s.subrange(1, s.len() as int),
            depth,
        )
    }
}

/// The presses needed to type `s` on a directional pad through `depth` robots.
pub open spec fn cost(s: Seq<u8>, depth: nat) -> nat {
    cost_from(KEY_A, s, depth)
}

/// The presses needed to type `code` on the numeric pad, whose arm stands on `prev`,
/// through `depth` robots on directional pads.
pub open spec fn code_cost_from(prev: u8, code: Seq<u8>, depth: nat) -> nat
    decreases code.len(),
{
    if code.len() == 0 {
        0
    } else {
        cost(num_moves(prev, code[0]), depth) + code_cost_from(
            code[0],
            code.subrange(1, code.len() as int),
            depth,
        )
    }
}

/// The decimal value of the digits of `code` among its first `n` buttons, `A` skipped.
pub open spec fn code_value_upto(code: Seq<u8>, n: int) -> nat
    decreases n,
{
    if n <= 0 {
        0
    } else if DIGIT_0 <= code[n - 1] && code[n - 1] <= DIGIT_9 {
        code_value_upto(code, n - 1) * 10 + (code[n - 1] - DIGIT_0) as nat
    } else {
        code_value_upto(code, n - 1)
    }
}

/// The number that a code stands for.
pub open spec fn code_value(code: Seq<u8>) -> nat {
    code_value_upto(code, code.len() as int)
}

/// Cost times numeric value, summed over the first `n` codes.
pub open spec fn complexity_upto(codes: Seq<Seq<u8>>, n: int, depth: nat) -> nat
    decreases n,
{
    if n <= 0 {
        0
    } else {
        complexity_upto(codes, n - 1, depth) + code_cost_from(KEY_A, codes[n - 1], depth)
            * code_value(codes[n - 1])
    }
}

/// Every line is made of numeric-pad buttons.
pub open spec fn codes_valid(codes: Seq<Seq<u8>>) -> bool {
    forall|i: int, j: int|
        0 <= i < codes.len() && 0 <= j < codes[i].len() ==> #[trigger] num_key(codes[i][j])
}

/// The total complexity of the codes in `text` when typed through `depth` robots.
pub open spec fn total_complexity(text: Seq<u8>, depth: nat) -> nat {
    let codes = split_lines(text);
    complexity_upto(codes, codes.len() as int, depth)
}

} // verus!

verus! {

/// Four to the power `n`.
pub open spec fn pow4(n: nat) -> nat
    decreases n,
{
    if n == 0 {
        1
    } else {
        4 * pow4((n - 1) as nat)
    }
}

proof fn lemma_pow4_bound(n: nat)
    requires
        n <= 30,
    ensures
        pow4(n) <= 1152921504606846976,
    decreases 30 - n,
{
    if n < 30 {
        lemma_pow4_bound(n + 1);
    } else {
        reveal_with_fuel(pow4, 31);
    }
}

proof fn lemma_path_len(fx: int, fy: int, tx: int, ty: int, gx: int, gy: int)
    ensures
        path(fx, fy, tx, ty, gx, gy).len() == (if tx < fx { fx - tx } else { tx - fx }) + (if ty
            < fy { fy - ty } else { ty - fy }) + 1,
        path(fx, fy, tx, ty, gx, gy).len() >= 1,
{
}

proof fn lemma_moves_len(a: u8, b: u8)
    ensures
        dir_key(a) && dir_key(b) ==> dir_moves(a, b).len() <= 4,
        num_key(a) && num_key(b) ==> num_moves(a, b).len() <= 6,
{
    lemma_path_len(dir_col(a), dir_row(a), dir_col(b), dir_row(b), 0, 0);
    lemma_path_len(num_col(a), num_row(a), num_col(b), num_row(b), 0, 3);
}

/// Every press on a directional pad is itself a directional button.
proof fn lemma_path_keys(fx: int, fy: int, tx: int, ty: int, gx: int, gy: int)
    ensures
        forall|i: int|
            0 <= i < path(fx, fy, tx, ty, gx, gy).len() ==> #[trigger] dir_key(
                path(fx, fy, tx, ty, gx, gy)[i],
            ),
{
    let h = horizontal(tx - fx);
    let v = vertical(ty - fy);
    assert forall|i: int| 0 <= i < h.len() implies dir_key(#[trigger] h[i]) by {}
    assert forall|i: int| 0 <= i < v.len() implies dir_key(#[trigger] v[i]) by {}
}

/// Column and row of a numeric-pad button.
fn num_pos(b: u8) -> (r: (u8, u8))
    requires
        num_key(b),
    ensures
        r.0 as int == num_col(b),
        r.1 as int == num_row(b),
        r.0 <= 2,
        r.1 <= 3,
{
    if b == DIGIT_0 {
        (1, 3)
    } else if b == KEY_A {
        (2, 3)
    } else {
        ((b - DIGIT_1) % 3, 2 - (b - DIGIT_1) / 3)
    }
}

/// Column and row of a directional-pad button.
fn dir_pos(b: u8) -> (r: (u8, u8))
    requires
        dir_key(b),
    ensures
        r.0 as int == dir_col(b),
        r.1 as int == dir_row(b),
        r.0 <= 2,
        r.1 <= 1,
{
    let col: u8 = if b == LEFT {
        0
    } else if b == UP || b == DOWN {
        1
    } else {
        2
    };
    let row: u8 = if b == UP || b == KEY_A {
        0
    } else {
        1
    };
    (col, row)
}

fn push_repeat(out: &mut Vec<u8>, c: u8, n: u8)
    ensures
        final(out)@ == old(out)@ + Seq::new(n as nat, |_i: int| c),
{
    let ghost start = out@;
    let mut k: u8 = 0;
    while k < n
        invariant
            k <= n,
            out@ == start + Seq::new(k as nat, |_i: int| c),
        decreases n - k,
    {
        out.push(c);
        k += 1;
        assert(out@ =~= start + Seq::new(k as nat, |_i: int| c));
    }
}

fn push_horizontal(out: &mut Vec<u8>, fx: u8, tx: u8)
    ensures
        final(out)@ == old(out)@ + horizontal(tx - fx),
{
    if tx < fx {
        push_repeat(out, LEFT, fx - tx);
    } else {
        push_repeat(out, RIGHT, tx - fx);
    }
}

fn push_vertical(out: &mut Vec<u8>, fy: u8, ty: u8)
    ensures
        final(out)@ == old(out)@ + vertical(ty - fy),
{
    if ty < fy {
        push_repeat(out, UP, fy - ty);
    } else {
        push_repeat(out, DOWN, ty - fy);
    }
}

/// The presses that move an arm between two places and press there.
fn make_path(fx: u8, fy: u8, tx: u8, ty: u8, gx: u8, gy: u8) -> (r: Vec<u8>)
    ensures
        r@ == path(fx as int, fy as int, tx as int, ty as int, gx as int, gy as int),
{
    let mut out: Vec<u8> = Vec::new();
    let h_first = if tx < fx {
        !(tx == gx && fy == gy)
    } else {
        fx == gx && ty == gy
    };
    if h_first {
        push_horizontal(&mut out, fx, tx);
        push_vertical(&mut out, fy, ty);
    } else {
        push_vertical(&mut out, fy, ty);
        push_horizontal(&mut out, fx, tx);
    }
    out.push(KEY_A);
    assert(out@ =~= path(fx as int, fy as int, tx as int, ty as int, gx as int, gy as int));
    out
}

fn make_num_moves(a: u8, b: u8) -> (r: Vec<u8>)
    requires
        num_key(a),
        num_key(b),
    ensures
        r@ == num_moves(a, b),
{
    let (fx, fy) = num_pos(a);
    let (tx, ty) = num_pos(b);
    make_path(fx, fy, tx, ty, 0, 3)
}

fn make_dir_moves(a: u8, b: u8) -> (r: Vec<u8>)
    requires
        dir_key(a),
        dir_key(b),
    ensures
        r@ == dir_moves(a, b),
{
    let (fx, fy) = dir_pos(a);
    let (tx, ty) = dir_pos(b);
    make_path(fx, fy, tx, ty, 0, 0)
}

/// The directional buttons in the order used to index cost tables.
pub open spec fn dir_button(i: int) -> u8 {
    if i == 0 {
        UP
    } else if i == 1 {
        KEY_A
    } else if i == 2 {
        LEFT
    } else if i == 3 {
        DOWN
    } else {
        RIGHT
    }
}

fn dir_button_at(i: usize) -> (r: u8)
    requires
        i < 5,
    ensures
        r == dir_button(i as int),
        dir_key(r),
{
    if i == 0 {
        UP
    } else if i == 1 {
        KEY_A
    } else if i == 2 {
        LEFT
    } else if i == 3 {
        DOWN
    } else {
        RIGHT
    }
}

fn dir_index(b: u8) -> (r: usize)
    requires
        dir_key(b),
    ensures
        r < 5,
        dir_button(r as int) == b,
{
    if b == UP {
        0
    } else if b == KEY_A {
        1
    } else if b == LEFT {
        2
    } else if b == DOWN {
        3
    } else {
        4
    }
}

/// A table of the cost of each move between two directional buttons, through `d` robots.
pub open spec fn table_ok(t: Seq<u64>, d: nat) -> bool {
    &&& t.len() == 25
    &&& forall|k: int|
        0 <= k < 25 ==> #[trigger] t[k] as nat == cost(
            dir_moves(dir_button(k as int / 5), dir_button(k as int % 5)),
            d,
        ) && t[k] <= pow4(d + 1)
}

/// What typing `s` costs one level further up than the table describes.
fn sum_presses(s: &Vec<u8>, t: &Vec<u64>, Ghost(d): Ghost<nat>) -> (r: u64)
    requires
        table_ok(t@, d),
        d + 1 <= 30,
        s@.len() <= 6,
        forall|i: int| 0 <= i < s@.len() ==> #[trigger] dir_key(s@[i]),
    ensures
        r as nat == cost(s@, d + 1),
        r <= s@.len() * pow4(d + 1),
{
    proof {
        lemma_pow4_bound(d + 1);
        assert(s@.subrange(0, s@.len() as int) =~= s@);
    }
    let ghost p = pow4(d + 1);
    let mut prev: u8 = KEY_A;
    let mut acc: u64 = 0;
    let mut j: usize = 0;
    while j < s.len()
        invariant
            table_ok(t@, d),
            p == pow4(d + 1),
            p <= 1152921504606846976,
            s@.len() <= 6,
            forall|i: int| 0 <= i < s@.len() ==> #[trigger] dir_key(s@[i]),
            j <= s@.len(),
            dir_key(prev),
            acc <= j * p,
            acc + cost_from(prev, s@.subrange(j as int, s@.len() as int), d + 1) == cost(
                s@,
                d + 1,
            ),
        decreases s@.len() - j,
    {
        let b = s[j];
        let a_i = dir_index(prev);
        let b_i = dir_index(b);
        let k = 5 * a_i + b_i;
        assert(k / 5 == a_i && k % 5 == b_i);
        let c = t[k];
        assert(c <= p);
        proof {
            let rest = s@.subrange(j as int, s@.len() as int);
            assert(rest[0] == b);
            assert(rest.subrange(1, rest.len() as int) =~= s@.subrange(j + 1, s@.len() as int));
            assert((j + 1) * p == j * p + p) by (nonlinear_arith);
            assert((j + 1) * p <= 6 * 1152921504606846976) by (nonlinear_arith)
                requires
                    j + 1 <= 6,
                    p <= 1152921504606846976,
            ;
        }
        acc = acc + c;
        prev = b;
        j += 1;
    }
    acc
}

/// The cost table for moves typed directly by a person.
fn base_table() -> (r: Vec<u64>)
    ensures
        table_ok(r@, 0),
{
    let mut t: Vec<u64> = Vec::new();
    let mut k: usize = 0;
    while k < 25
        invariant
            k <= 25,
            t@.len() == k,
            forall|i: int|
                0 <= i < k ==> #[trigger] t@[i] as nat == cost(
                    dir_moves(dir_button(i / 5), dir_button(i % 5)),
                    0,
                ) && t@[i] <= pow4(1),
        decreases 25 - k,
    {
        let m = make_dir_moves(dir_button_at(k / 5), dir_button_at(k % 5));
        proof {
            lemma_moves_len(dir_button(k as int / 5), dir_button(k as int % 5));
            assert(pow4(1) == 4) by {
                reveal_with_fuel(pow4, 2);
            }
        }
        t.push(m.len() as u64);
        k += 1;
    }
    t
}

/// The cost table one robot further up.
fn next_table(t: &Vec<u64>, Ghost(d): Ghost<nat>) -> (r: Vec<u64>)
    requires
        table_ok(t@, d),
        d + 2 <= 30,
    ensures
        table_ok(r@, d + 1),
{
    let mut r: Vec<u64> = Vec::new();
    let mut k: usize = 0;
    while k < 25
        invariant
            table_ok(t@, d),
            d + 2 <= 30,
            k <= 25,
            r@.len() == k,
            forall|i: int|
                0 <= i < k ==> #[trigger] r@[i] as nat == cost(
                    dir_moves(dir_button(i / 5), dir_button(i % 5)),
                    d + 1,
                ) && r@[i] <= pow4(d + 2),
        decreases 25 - k,
    {
        let m = make_dir_moves(dir_button_at(k / 5), dir_button_at(k % 5));
        proof {
            lemma_moves_len(dir_button(k as int / 5), dir_button(k as int % 5));
            lemma_path_keys(
                dir_col(dir_button(k as int / 5)),
                dir_row(dir_button(k as int / 5)),
                dir_col(dir_button(k as int % 5)),
                dir_row(dir_button(k as int % 5)),
                0,
                0,
            );
        }
        let c = sum_presses(&m, t, Ghost(d));
        proof {
            let p = pow4(d + 1);
            assert(m@.len() * p <= 4 * p) by (nonlinear_arith)
                requires
                    m@.len() <= 4,
            ;
            assert(pow4(d + 2) == 4 * p);
        }
        r.push(c);
        k += 1;
    }
    r
}

} // verus!

verus! {

/// The presses on the next directional pad up that make an arm, standing on `prev`,
/// type `s`: one fragment per button, each ending in `A`.
pub open spec fn expand_from(prev: u8, s: Seq<u8>) -> Seq<u8>
    decreases s.len(),
{
    if s.len() == 0 {
        seq![]
    } else {
        dir_moves(prev, s[0]) + expand_from(s[0], s.subrange(1, s.len() as int))
    }
}

proof fn lemma_cost_concat(p: u8, x: Seq<u8>, y: Seq<u8>, d: nat)
    ensures
        cost_from(p, x + y, d) == cost_from(p, x, d) + cost_from(
            if x.len() == 0 {
                p
            } else {
                x.last()
            },
            y,
            d,
        ),
    decreases x.len(),
{
    if d > 0 && x.len() > 0 {
        let rest = x.subrange(1, x.len() as int);
        assert((x + y)[0] == x[0]);
        assert((x + y).subrange(1, (x + y).len() as int) =~= rest + y);
        lemma_cost_concat(x[0], rest, y, d);
        if rest.len() > 0 {
            assert(rest.last() == x.last());
        }
    } else if x.len() == 0 {
        assert(x + y =~= y);
    }
}

/// Typing through one more robot costs what typing the expansion costs: the cost of a
/// sequence at depth `d + 1` is the sum, over the `A`-terminated fragments of its
/// expansion, of their costs at depth `d`.
pub proof fn cost_is_cost_of_expansion(prev: u8, s: Seq<u8>, d: nat)
    ensures
        cost_from(prev, s, d + 1) == cost(expand_from(prev, s), d),
    decreases s.len(),
{
    if s.len() > 0 {
        let rest = s.subrange(1, s.len() as int);
        let m = dir_moves(prev, s[0]);
        cost_is_cost_of_expansion(s[0], rest, d);
        lemma_cost_concat(KEY_A, m, expand_from(s[0], rest), d);
        lemma_path_len(dir_col(prev), dir_row(prev), dir_col(s[0]), dir_row(s[0]), 0, 0);
    }
}

/// Typed directly, a sequence costs its length.
pub proof fn cost_at_depth_zero(s: Seq<u8>)
    ensures
        cost(s, 0) == s.len(),
{
}

proof fn lemma_cost_positive(p: u8, s: Seq<u8>, d: nat)
    requires
        s.len() > 0,
    ensures
        cost_from(p, s, d) >= 1,
    decreases d,
{
    if d > 0 {
        lemma_path_len(dir_col(p), dir_row(p), dir_col(s[0]), dir_row(s[0]), 0, 0);
        lemma_cost_positive(KEY_A, dir_moves(p, s[0]), (d - 1) as nat);
    }
}

proof fn lemma_code_cost_positive(p: u8, code: Seq<u8>, d: nat)
    requires
        code.len() > 0,
    ensures
        code_cost_from(p, code, d) >= 1,
{
    lemma_path_len(num_col(p), num_row(p), num_col(code[0]), num_row(code[0]), 0, 3);
    lemma_cost_positive(KEY_A, num_moves(p, code[0]), d);
}

proof fn lemma_value_monotone(code: Seq<u8>, k: int, n: int)
    requires
        0 <= k <= n <= code.len(),
    ensures
        code_value_upto(code, k) <= code_value_upto(code, n),
    decreases n - k,
{
    if k < n {
        lemma_value_monotone(code, k, n - 1);
    }
}

proof fn lemma_value_zero_empty(code: Seq<u8>, n: int)
    requires
        0 <= n <= code.len(),
        code_value_upto(code, n) > 0,
    ensures
        n > 0,
{
}

proof fn lemma_complexity_monotone(codes: Seq<Seq<u8>>, k: int, n: int, d: nat)
    requires
        0 <= k <= n,
    ensures
        complexity_upto(codes, k, d) <= complexity_upto(codes, n, d),
    decreases n - k,
{
    if k < n {
        lemma_complexity_monotone(codes, k, n - 1, d);
    }
}

/// What typing the presses `m` costs through `depth` robots, given the table for one fewer.
fn moves_cost(m: &Vec<u8>, t: &Vec<u64>, depth: usize) -> (r: u64)
    requires
        depth <= 30,
        depth > 0 ==> table_ok(t@, (depth - 1) as nat),
        m@.len() <= 6,
        forall|i: int| 0 <= i < m@.len() ==> #[trigger] dir_key(m@[i]),
    ensures
        r as nat == cost(m@, depth as nat),
{
    if depth == 0 {
        m.len() as u64
    } else {
        sum_presses(m, t, Ghost((depth - 1) as nat))
    }
}

/// The presses needed to type one code, or `None` where that number exceeds 64 bits.
fn code_cost(code: &Vec<u8>, t: &Vec<u64>, depth: usize) -> (r: Option<u64>)
    requires
        depth <= 30,
        depth > 0 ==> table_ok(t@, (depth - 1) as nat),
        forall|i: int| 0 <= i < code@.len() ==> #[trigger] num_key(code@[i]),
    ensures
        match r {
            Some(v) => v as nat == code_cost_from(KEY_A, code@, depth as nat),
            None => code_cost_from(KEY_A, code@, depth as nat) > u64::MAX,
        },
{
    let mut prev: u8 = KEY_A;
    let mut acc: u64 = 0;
    let mut j: usize = 0;
    proof {
        assert(code@.subrange(0, code@.len() as int) =~= code@);
    }
    while j < code.len()
        invariant
            depth <= 30,
            depth > 0 ==> table_ok(t@, (depth - 1) as nat),
            forall|i: int| 0 <= i < code@.len() ==> #[trigger] num_key(code@[i]),
            j <= code@.len(),
            num_key(prev),
            acc + code_cost_from(prev, code@.subrange(j as int, code@.len() as int), depth as nat)
                == code_cost_from(KEY_A, code@, depth as nat),
        decreases code@.len() - j,
    {
        let b = code[j];
        let m = make_num_moves(prev, b);
        proof {
            lemma_moves_len(prev, b);
            lemma_path_keys(num_col(prev), num_row(prev), num_col(b), num_row(b), 0, 3);
            let rest = code@.subrange(j as int, code@.len() as int);
            assert(rest[0] == b);
            assert(rest.subrange(1, rest.len() as int) =~= code@.subrange(
                j + 1,
                code@.len() as int,
            ));
        }
        let c = moves_cost(&m, t, depth);
        match acc.checked_add(c) {
            Some(x) => acc = x,
            None => return None,
        }
        prev = b;
        j += 1;
    }
    Some(acc)
}

/// The number a code stands for, or `None` where it exceeds 64 bits.
fn code_number(code: &Vec<u8>) -> (r: Option<u64>)
    ensures
        match r {
            Some(v) => v as nat == code_value(code@),
            None => code_value(code@) > u64::MAX,
        },
{
    let mut acc: u64 = 0;
    let mut j: usize = 0;
    while j < code.len()
        invariant
            j <= code@.len(),
            acc as nat == code_value_upto(code@, j as int),
        decreases code@.len() - j,
    {
        let b = code[j];
        if DIGIT_0 <= b && b <= DIGIT_9 {
            let next = match acc.checked_mul(10) {
                Some(x) => x.checked_add((b - DIGIT_0) as u64),
                None => None,
            };
            match next {
                Some(x) => acc = x,
                None => {
                    proof {
                        lemma_value_monotone(code@, j + 1, code@.len() as int);
                    }
                    return None;
                },
            }
        }
        j += 1;
    }
    Some(acc)
}

/// Total complexity of the codes in `input`, each typed through `robot_count` robots on
/// directional pads: for each line, the presses a person makes times the number the code
/// stands for, summed. `None` where a line holds anything but numeric-pad buttons, or
/// where the total does not fit in a `usize`. At most 30 robots: beyond that the
/// presses behind a single move may not fit in 64 bits.
pub fn part_two_ex(input: &str, robot_count: usize) -> (r: Option<usize>)
    requires
        robot_count <= 30,
    ensures
        usize_answer(
            r,
            codes_valid(split_lines(input.spec_bytes())),
            total_complexity(input.spec_bytes(), robot_count as nat),
        ),
{
    let codes = lines(input.as_bytes());
    let ghost cv = views(codes@);
    assert(cv == split_lines(input.spec_bytes()));
    let mut i: usize = 0;
    while i < codes.len()
        invariant
            cv == views(codes@),
            cv == split_lines(input.spec_bytes()),
            i <= cv.len(),
            forall|a: int, b: int|
                0 <= a < i && 0 <= b < cv[a].len() ==> #[trigger] num_key(cv[a][b]),
        decreases cv.len() - i,
    {
        let code = &codes[i];
        let mut j: usize = 0;
        while j < code.len()
            invariant
                cv == views(codes@),
                cv == split_lines(input.spec_bytes()),
            cv == split_lines(input.spec_bytes()),
                i < cv.len(),
                code@ == cv[i as int],
                j <= code@.len(),
                forall|a: int, b: int|
                    0 <= a < i && 0 <= b < cv[a].len() ==> #[trigger] num_key(cv[a][b]),
                forall|b: int| 0 <= b < j ==> #[trigger] num_key(code@[b]),
            decreases code@.len() - j,
        {
            let b = code[j];
            if !((DIGIT_0 <= b && b <= DIGIT_9) || b == KEY_A) {
                assert(!num_key(cv[i as int][j as int]));
                assert(!codes_valid(cv));
                return None;
            }
            j += 1;
        }
        i += 1;
    }
    assert(codes_valid(cv));
    let mut t = base_table();
    let mut d: usize = 0;
    while d + 1 < robot_count
        invariant
            robot_count <= 30,
            robot_count > 0 ==> d + 1 <= robot_count,
            d <= 29,
            table_ok(t@, d as nat),
        decreases robot_count - d,
    {
        t = next_table(&t, Ghost(d as nat));
        d += 1;
    }
    assert(robot_count > 0 ==> d == robot_count - 1);
    let mut total: usize = 0;
    let mut k: usize = 0;
    while k < codes.len()
        invariant
            cv == views(codes@),
            cv == split_lines(input.spec_bytes()),
            codes_valid(cv),
            robot_count <= 30,
            robot_count > 0 ==> table_ok(t@, (robot_count - 1) as nat),
            k <= cv.len(),
            total as nat == complexity_upto(cv, k as int, robot_count as nat),
        decreases cv.len() - k,
    {
        let code = &codes[k];
        assert(code@ == cv[k as int]);
        proof {
            lemma_complexity_monotone(cv, k + 1, cv.len() as int, robot_count as nat);
        }
        match code_number(code) {
            None => {
                proof {
                    lemma_value_zero_empty(code@, code@.len() as int);
                    lemma_code_cost_positive(KEY_A, code@, robot_count as nat);
                    let c = code_cost_from(KEY_A, code@, robot_count as nat);
                    let v = code_value(code@);
                    assert(c * v >= v) by (nonlinear_arith)
                        requires
                            c >= 1,
                    ;
                    assert(complexity_upto(cv, k + 1, robot_count as nat) >= v);
                    assert(v > usize::MAX);
                }
                return None;
            },
            Some(v) => {
                if v == 0 {
                    assert(code_cost_from(KEY_A, code@, robot_count as nat) * 0 == 0);
                }
                if v > 0 {
                    if v > usize::MAX as u64 {
                        proof {
                            lemma_value_zero_empty(code@, code@.len() as int);
                            lemma_code_cost_positive(KEY_A, code@, robot_count as nat);
                            let c = code_cost_from(KEY_A, code@, robot_count as nat);
                            assert(c * v >= v) by (nonlinear_arith)
                                requires
                                    c >= 1,
                            ;
                        }
                        return None;
                    }
                    let v = v as usize;
                    match code_cost(code, &t, robot_count) {
                        None => {
                            proof {
                                let c = code_cost_from(KEY_A, code@, robot_count as nat);
                                assert(c * v >= c) by (nonlinear_arith)
                                    requires
                                        v >= 1,
                                ;
                            }
                            return None;
                        },
                        Some(c) => if c > usize::MAX as u64 {
                            proof {
                                assert(c * v >= c) by (nonlinear_arith)
                                    requires
                                        v >= 1,
                                ;
                            }
                            return None;
                        } else {
                            match (c as usize).checked_mul(v) {
                            None => return None,
                            Some(p) => match total.checked_add(p) {
                                None => return None,
                                Some(x) => total = x,
                            },
                        }},
                    }
                }
            },
        }
        k += 1;
    }
    Some(total)
}

/// Total complexity of the codes in `input` typed through two robots.
pub fn part_one(input: &str) -> (r: Option<usize>)
    ensures
        usize_answer(
            r,
            codes_valid(split_lines(input.spec_bytes())),
            total_complexity(input.spec_bytes(), 2),
        ),
{
    part_two_ex(input, 2)
}

/// Total complexity of the codes in `input` typed through twenty-five robots.
pub fn part_two(input: &str) -> (r: Option<usize>)
    ensures
        usize_answer(
            r,
            codes_valid(split_lines(input.spec_bytes())),
            total_complexity(input.spec_bytes(), 25),
        ),
{
    part_two_ex(input, 25)
}

} // verus!
