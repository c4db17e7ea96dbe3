//! A network of AND, OR and XOR gates over named wires. Starting from the given wire
//! values, gates whose inputs are known set their output, pass after pass, until a
//! pass changes nothing; the wires `z00`, `z01`, ... then spell a binary number, least
//! significant first.
use vstd::prelude::*;
use std::collections::HashMap;
use crate::text::{ascii_chars, ascii_string, lines, split_lines, views};
use vstd::arithmetic::power2::pow2;
use vstd::string::StringSliceAdditionalSpecFns;

verus! {

broadcast use vstd::std_specs::hash::group_hash_axioms;

pub const AND: u8 = 0;
pub const OR: u8 = 1;
pub const XOR: u8 = 2;

/// A gate: first input, kind, second input, output.
pub type Gate = (u32, u8, u32, u32);

/// What a line of the puzzle text says.
pub enum Line {
    Wire(u32, bool),
    Connect(Gate),
    Blank,
    Unreadable,
}

/// The key of the three-byte wire name at `at`.
pub open spec fn wire_key(line: Seq<u8>, at: int) -> u32 {
    (line[at] as nat * 65536 + line[at + 1] as nat * 256 + line[at + 2] as nat) as u32
}

/// `line[at..at + 4]` is " -> ".
pub open spec fn arrow_at(line: Seq<u8>, at: int) -> bool {
    line[at] == 32 && line[at + 1] == 45 && line[at + 2] == 62 && line[at + 3] == 32
}

/// Reads `abc: 1`, `abc AND def -> ghi`, `abc OR def -> ghi` or `abc XOR def -> ghi`.
pub open spec fn parse_line(line: Seq<u8>) -> Line {
    if line.len() == 0 {
        Line::Blank
    } else if line.len() == 6 && line[3] == 58 && line[4] == 32 && (line[5] == 48 || line[5] == 49) {
        Line::Wire(wire_key(line, 0), line[5] == 49)
    } else if line.len() == 17 && line[3] == 32 && line[4] == 79 && line[5] == 82 && line[6] == 32
        && arrow_at(line, 10) {
        Line::Connect((wire_key(line, 0), OR, wire_key(line, 7), wire_key(line, 14)))
    } else if line.len() == 18 && line[3] == 32 && line[7] == 32 && arrow_at(line, 11) && ((line[4]
        == 65 && line[5] == 78 && line[6] == 68) || (line[4] == 88 && line[5] == 79 && line[6] == 82)) {
        Line::Connect(
            (
                wire_key(line, 0),
                if line[4] == 65 { AND } else { XOR },
                wire_key(line, 8),
                wire_key(line, 15),
            ),
        )
    } else {
        Line::Unreadable
    }
}

pub open spec fn lines_readable(ls: Seq<Seq<u8>>) -> bool {
    forall|i: int| 0 <= i < ls.len() ==> !(#[trigger] parse_line(ls[i]) is Unreadable)
}

/// The wire values that the first `n` lines give, later lines winning.
pub open spec fn given_wires(ls: Seq<Seq<u8>>, n: int) -> Map<u32, bool>
    decreases n,
{
    if n <= 0 {
        Map::empty()
    } else {
        match parse_line(ls[n - 1]) {
            Line::Wire(k, v) => given_wires(ls, n - 1).insert(k, v),
            _ => given_wires(ls, n - 1),
        }
    }
}

/// The gates of the first `n` lines.
pub open spec fn gates_of(ls: Seq<Seq<u8>>, n: int) -> Seq<Gate>
    decreases n,
{
    if n <= 0 {
        seq![]
    } else {
        match parse_line(ls[n - 1]) {
            Line::Connect(g) => gates_of(ls, n - 1).push(g),
            _ => gates_of(ls, n - 1),
        }
    }
}

pub open spec fn apply(op: u8, x: bool, y: bool) -> bool {
    if op == AND {
        x && y
    } else if op == OR {
        x || y
    } else {
        x != y
    }
}

/// The wires after gates `0..i` of one pass each set their output where it is still
/// unknown and both inputs are known.
pub open spec fn pass(m: Map<u32, bool>, gates: Seq<Gate>, i: int) -> Map<u32, bool>
    decreases i,
{
    if i <= 0 {
        m
    } else {
        let before = pass(m, gates, i - 1);
        let (a, op, b, out) = gates[i - 1];
        if !before.contains_key(out) && before.contains_key(a) && before.contains_key(b) {
            before.insert(out, apply(op, before[a], before[b]))
        } else {
            before
        }
    }
}

/// Passes until one changes nothing, at most `fuel` of them.
pub open spec fn settle(m: Map<u32, bool>, gates: Seq<Gate>, fuel: nat) -> Map<u32, bool>
    decreases fuel,
{
    if fuel == 0 {
        m
    } else {
        let next = pass(m, gates, gates.len() as int);
        if next == m {
            m
        } else {
            settle(next, gates, (fuel - 1) as nat)
        }
    }
}

/// The key of wire `z` followed by the two digits of `k`.
pub open spec fn z_key(k: int) -> u32 {
    (122 * 65536 + (48 + k / 10) * 256 + (48 + k % 10)) as u32
}

/// The number that wires `z00` to `z(k-1)` spell, least significant first.
pub open spec fn z_number(m: Map<u32, bool>, k: int) -> nat
    decreases k,
{
    if k <= 0 {
        0
    } else {
        z_number(m, k - 1) + if m.contains_key(z_key(k - 1)) && m[z_key(k - 1)] {
            pow2((k - 1) as nat)
        } else {
            0
        }
    }
}

/// The wires once the network in `text` has settled.
pub open spec fn settled(text: Seq<u8>) -> Map<u32, bool> {
    let ls = split_lines(text);
    let gates = gates_of(ls, ls.len() as int);
    settle(given_wires(ls, ls.len() as int), gates, (gates.len() + 1) as nat)
}

pub open spec fn network_valid(text: Seq<u8>) -> bool {
    lines_readable(split_lines(text))
}

fn key_at(line: &Vec<u8>, at: usize) -> (r: u32)
    requires
        at + 3 <= line@.len(),
    ensures
        r == wire_key(line@, at as int),
{
    let _n = line.len();
    (line[at] as u32) * 65536 + (line[at + 1] as u32) * 256 + (line[at + 2] as u32)
}

fn read_line(line: &Vec<u8>) -> (r: Line)
    ensures
        r == parse_line(line@),
{
    let n = line.len();
    if n == 0 {
        Line::Blank
    } else if n == 6 && line[3] == 58 && line[4] == 32 && (line[5] == 48 || line[5] == 49) {
        Line::Wire(key_at(line, 0), line[5] == 49)
    } else if n == 17 && line[3] == 32 && line[4] == 79 && line[5] == 82 && line[6] == 32 && line[10]
        == 32 && line[11] == 45 && line[12] == 62 && line[13] == 32 {
        Line::Connect((key_at(line, 0), OR, key_at(line, 7), key_at(line, 14)))
    } else if n == 18 && line[3] == 32 && line[7] == 32 && line[11] == 32 && line[12] == 45
        && line[13] == 62 && line[14] == 32 && ((line[4] == 65 && line[5] == 78 && line[6] == 68)
        || (line[4] == 88 && line[5] == 79 && line[6] == 82)) {
        let op = if line[4] == 65 {
            AND
        } else {
            XOR
        };
        Line::Connect((key_at(line, 0), op, key_at(line, 8), key_at(line, 15)))
    } else {
        Line::Unreadable
    }
}

fn run_pass(m: &mut HashMap<u32, bool>, gates: &Vec<Gate>) -> (changed: bool)
    ensures
        final(m)@ == pass(old(m)@, gates@, gates@.len() as int),
        changed == (final(m)@ != old(m)@),
{
    let ghost start = m@;
    let mut changed = false;
    let mut i: usize = 0;
    while i < gates.len()
        invariant
            i <= gates@.len(),
            m@ == pass(start, gates@, i as int),
            changed ==> m@.dom().len() > start.dom().len() || m@ != start,
            !changed ==> m@ == start,
        decreases gates@.len() - i,
    {
        let (a, op, b, out) = gates[i];
        if !m.contains_key(&out) {
            let x = m.get(&a);
            let y = m.get(&b);
            match (x, y) {
                (Some(x), Some(y)) => {
                    let v = if op == AND {
                        *x && *y
                    } else if op == OR {
                        *x || *y
                    } else {
                        *x != *y
                    };
                    let ghost before = m@;
                    m.insert(out, v);
                    proof {
                        assert(!before.contains_key(out));
                        assert(m@.contains_key(out));
                        assert(m@ != start) by {
                            if m@ == start {
                                lemma_pass_grows(start, gates@, i as int);
                                assert(before.dom().subset_of(m@.dom()));
                            }
                        }
                    }
                    changed = true;
                },
                _ => {},
            }
        }
        i += 1;
    }
    changed
}

/// A pass only adds wires.
proof fn lemma_pass_grows(m: Map<u32, bool>, gates: Seq<Gate>, i: int)
    ensures
        forall|k: u32| #[trigger] m.contains_key(k) ==> pass(m, gates, i).contains_key(k) && pass(
            m,
            gates,
            i,
        )[k] == m[k],
    decreases i,
{
    if i > 0 {
        lemma_pass_grows(m, gates, i - 1);
        let before = pass(m, gates, i - 1);
        assert forall|k: u32| #[trigger] m.contains_key(k) implies pass(m, gates, i).contains_key(k)
            && pass(m, gates, i)[k] == m[k] by {
            assert(before.contains_key(k) && before[k] == m[k]);
        }
    }
}

/// Runs passes until one changes nothing, at most one more than there are gates.
fn settle_wires(m: &mut HashMap<u32, bool>, gates: &Vec<Gate>)
    ensures
        final(m)@ == settle(old(m)@, gates@, (gates@.len() + 1) as nat),
{
    let mut left: usize = gates.len();
    loop
        invariant
            left <= gates@.len(),
            settle(old(m)@, gates@, (gates@.len() + 1) as nat) == settle(m@, gates@, (left + 1) as nat),
        decreases left,
    {
        let ghost before = m@;
        let changed = run_pass(m, gates);
        if !changed {
            return;
        }
        if left == 0 {
            assert(settle(m@, gates@, 0) == m@);
            return;
        }
        left -= 1;
    }
}

fn z_key_of(k: u32) -> (r: u32)
    requires
        k < 100,
    ensures
        r == z_key(k as int),
{
    122 * 65536 + (48 + k / 10) * 256 + (48 + k % 10)
}

/// The number that wires `z00` to `z99` spell.
fn z_value(m: &HashMap<u32, bool>) -> (r: u128)
    ensures
        r as nat == z_number(m@, 100),
{
    proof {
        vstd::arithmetic::power2::lemma2_to64();
        vstd::arithmetic::power2::lemma2_to64_rest();
        vstd::arithmetic::power2::lemma_pow2_adds(64, 35);
    }
    let mut r: u128 = 0;
    let mut p: u128 = 1;
    let mut k: u32 = 0;
    while k < 100
        invariant
            k <= 100,
            p as nat == pow2(k as nat),
            pow2(99) == pow2(64) * pow2(35),
            pow2(64) == 0x10000000000000000,
            pow2(35) == 0x800000000,
            r as nat == z_number(m@, k as int),
            r < p,
        decreases 100 - k,
    {
        let key = z_key_of(k);
        let bit = match m.get(&key) {
            Some(v) => *v,
            None => false,
        };
        proof {
            vstd::arithmetic::power2::lemma_pow2_unfold((k + 1) as nat);
            if k < 99 {
                vstd::arithmetic::power2::lemma_pow2_strictly_increases(k as nat, 99);
            }
        }
        if bit {
            r = r + p;
        }
        p = p * 2;
        k += 1;
    }
    r
}

/// The given wire values and the gates of the network in `input`; `None` where a line
/// cannot be read.
fn read_network(input: &str) -> (r: Option<(HashMap<u32, bool>, Vec<Gate>)>)
    ensures
        match r {
            Some((m, gates)) => {
                let ls = split_lines(input.spec_bytes());
                &&& network_valid(input.spec_bytes())
                &&& m@ == given_wires(ls, ls.len() as int)
                &&& gates@ == gates_of(ls, ls.len() as int)
            },
            None => !network_valid(input.spec_bytes()),
        },
{
    let ls = lines(input.as_bytes());
    let ghost lv = views(ls@);
    let mut m: HashMap<u32, bool> = HashMap::new();
    let mut gates: Vec<Gate> = Vec::new();
    let mut i: usize = 0;
    while i < ls.len()
        invariant
            lv == views(ls@),
            lv == split_lines(input.spec_bytes()),
            i <= lv.len(),
            forall|j: int| 0 <= j < i ==> !(#[trigger] parse_line(lv[j]) is Unreadable),
            m@ == given_wires(lv, i as int),
            gates@ == gates_of(lv, i as int),
        decreases lv.len() - i,
    {
        match read_line(&ls[i]) {
            Line::Wire(k, v) => {
                m.insert(k, v);
            },
            Line::Connect(g) => {
                gates.push(g);
            },
            Line::Blank => {},
            Line::Unreadable => {
                assert(parse_line(lv[i as int]) is Unreadable);
                return None;
            },
        }
        i += 1;
    }
    Some((m, gates))
}

/// The number that the `z` wires spell once the network in `input` has settled; `None`
/// where a line cannot be read or the number does not fit in a `usize`.
pub fn part_one(input: &str) -> (r: Option<usize>)
    ensures
        match r {
            Some(v) => network_valid(input.spec_bytes()) && v as nat == z_number(
                settled(input.spec_bytes()),
                100,
            ),
            None => !network_valid(input.spec_bytes()) || z_number(settled(input.spec_bytes()), 100)
                > usize::MAX,
        },
{
    let (mut m, gates) = match read_network(input) {
        Some(n) => n,
        None => return None,
    };
    settle_wires(&mut m, &gates);
    let v = z_value(&m);
    if v > usize::MAX as u128 {
        return None;
    }
    Some(v as usize)
}

/// The first letter of a wire's name.
pub open spec fn first_letter(k: u32) -> int {
    k as int / 65536
}

/// A wire that the adder reads: `x..` or `y..`.
pub open spec fn is_input_wire(k: u32) -> bool {
    first_letter(k) == 120 || first_letter(k) == 121
}

/// An output wire `z..`.
pub open spec fn is_output_wire(k: u32) -> bool {
    first_letter(k) == 122
}

pub const X00: u32 = 7876656;
pub const Y00: u32 = 7942192;

/// A wire of the lowest bit, which has no carry in.
pub open spec fn is_bit_zero(k: u32) -> bool {
    k == X00 || k == Y00
}

/// The highest output wire among the outputs of the first `n` gates; 0 where none.
pub open spec fn last_output(gates: Seq<Gate>, n: int) -> u32
    decreases n,
{
    if n <= 0 {
        0
    } else {
        let prev = last_output(gates, n - 1);
        let out = gates[n - 1].3;
        if is_output_wire(out) && out > prev {
            out
        } else {
            prev
        }
    }
}

/// Wire `w` is an input of an XOR gate.
pub open spec fn feeds_xor(gates: Seq<Gate>, w: u32) -> bool {
    exists|j: int| 0 <= j < gates.len() && #[trigger] gates[j].1 == XOR && (gates[j].0 == w || gates[j].2 == w)
}

/// Wire `w` is an input of a gate other than OR.
pub open spec fn feeds_non_or(gates: Seq<Gate>, w: u32) -> bool {
    exists|j: int| 0 <= j < gates.len() && #[trigger] gates[j].1 != OR && (gates[j].0 == w || gates[j].2 == w)
}

/// Gate `i` breaks a rule of the ripple-carry adder: an output wire other than the
/// last is set by a gate other than XOR; an XOR of two inner wires sets an inner
/// wire; an XOR of two input bits, above bit zero, feeds no XOR; or an AND, above
/// bit zero, feeds something other than an OR.
pub open spec fn misplaced(gates: Seq<Gate>, i: int) -> bool {
    let (a, op, b, out) = gates[i];
    let last = last_output(gates, gates.len() as int);
    ||| is_output_wire(out) && op != XOR && out != last
    ||| op == XOR && !is_input_wire(a) && !is_input_wire(b) && !is_output_wire(out)
    ||| op == XOR && is_input_wire(a) && is_input_wire(b) && !is_bit_zero(a) && !is_bit_zero(b)
        && !feeds_xor(gates, out)
    ||| op == AND && !is_bit_zero(a) && !is_bit_zero(b) && feeds_non_or(gates, out)
}

/// `w` is the output of a misplaced gate.
pub open spec fn is_misplaced_output(gates: Seq<Gate>, w: u32) -> bool {
    exists|i: int| 0 <= i < gates.len() && #[trigger] misplaced(gates, i) && gates[i].3 == w
}

/// The names of the wires `keys`, separated by commas.
pub open spec fn names_joined(keys: Seq<u32>) -> Seq<u8>
    decreases keys.len(),
{
    if keys.len() == 0 {
        seq![]
    } else {
        let k = keys.last();
        let name = seq![(k / 65536) as u8, ((k / 256) % 256) as u8, (k % 256) as u8];
        if keys.len() == 1 {
            name
        } else {
            names_joined(keys.drop_last()) + seq![44u8] + name
        }
    }
}

/// `keys` lists, in increasing order, exactly the outputs of misplaced gates.
pub open spec fn lists_misplaced(gates: Seq<Gate>, keys: Seq<u32>) -> bool {
    &&& forall|i: int, j: int| 0 <= i < j < keys.len() ==> keys[i] < keys[j]
    &&& forall|w: u32| keys.contains(w) <==> is_misplaced_output(gates, w)
}

fn last_output_of(gates: &Vec<Gate>) -> (r: u32)
    ensures
        r == last_output(gates@, gates@.len() as int),
{
    let mut r: u32 = 0;
    let mut i: usize = 0;
    while i < gates.len()
        invariant
            i <= gates@.len(),
            r == last_output(gates@, i as int),
        decreases gates@.len() - i,
    {
        let out = gates[i].3;
        if out / 65536 == 122 && out > r {
            r = out;
        }
        i += 1;
    }
    r
}

fn feeds(gates: &Vec<Gate>, w: u32, want_xor: bool) -> (r: bool)
    ensures
        want_xor ==> r == feeds_xor(gates@, w),
        !want_xor ==> r == feeds_non_or(gates@, w),
{
    let mut j: usize = 0;
    while j < gates.len()
        invariant
            j <= gates@.len(),
            want_xor ==> forall|i: int| 0 <= i < j ==> !(#[trigger] gates@[i].1 == XOR && (gates@[i].0 == w || gates@[i].2 == w)),
            !want_xor ==> forall|i: int| 0 <= i < j ==> !(#[trigger] gates@[i].1 != OR && (gates@[i].0 == w || gates@[i].2 == w)),
        decreases gates@.len() - j,
    {
        let (a, op, b, _out) = gates[j];
        if (a == w || b == w) && ((want_xor && op == XOR) || (!want_xor && op != OR)) {
            return true;
        }
        j += 1;
    }
    false
}

fn is_misplaced(gates: &Vec<Gate>, i: usize, last: u32) -> (r: bool)
    requires
        i < gates@.len(),
        last == last_output(gates@, gates@.len() as int),
    ensures
        r == misplaced(gates@, i as int),
{
    let (a, op, b, out) = gates[i];
    let input_a = a / 65536 == 120 || a / 65536 == 121;
    let input_b = b / 65536 == 120 || b / 65536 == 121;
    let out_z = out / 65536 == 122;
    let zero_a = a == X00 || a == Y00;
    let zero_b = b == X00 || b == Y00;
    if out_z && op != XOR && out != last {
        return true;
    }
    if op == XOR && !input_a && !input_b && !out_z {
        return true;
    }
    if op == XOR && input_a && input_b && !zero_a && !zero_b && !feeds(gates, out, true) {
        return true;
    }
    op == AND && !zero_a && !zero_b && feeds(gates, out, false)
}

/// The outputs of misplaced gates, sorted, each once.
fn misplaced_outputs(gates: &Vec<Gate>) -> (r: Vec<u32>)
    ensures
        lists_misplaced(gates@, r@),
{
    let last = last_output_of(gates);
    let mut bad: Vec<u32> = Vec::new();
    let mut i: usize = 0;
    while i < gates.len()
        invariant
            last == last_output(gates@, gates@.len() as int),
            i <= gates@.len(),
            forall|w: u32| bad@.contains(w) <==> exists|j: int| 0 <= j < i && #[trigger] misplaced(gates@, j) && gates@[j].3 == w,
        decreases gates@.len() - i,
    {
        if is_misplaced(gates, i, last) {
            let ghost before = bad@;
            bad.push(gates[i].3);
            proof {
                assert forall|w: u32| bad@.contains(w) <==> exists|j: int| 0 <= j < i + 1 && #[trigger] misplaced(gates@, j) && gates@[j].3 == w by {
                    if bad@.contains(w) {
                        let x = choose|x: int| 0 <= x < bad@.len() && bad@[x] == w;
                        if x < before.len() {
                            assert(before.contains(w));
                        }
                    }
                    if exists|j: int| 0 <= j < i + 1 && #[trigger] misplaced(gates@, j) && gates@[j].3 == w {
                        let j = choose|j: int| 0 <= j < i + 1 && #[trigger] misplaced(gates@, j) && gates@[j].3 == w;
                        if j < i {
                            assert(before.contains(w));
                            let x = choose|x: int| 0 <= x < before.len() && before[x] == w;
                            assert(bad@[x] == w);
                        } else {
                            assert(bad@[before.len() as int] == w);
                        }
                    }
                }
            }
        } else {
            proof {
                assert forall|w: u32| bad@.contains(w) <==> exists|j: int| 0 <= j < i + 1 && #[trigger] misplaced(gates@, j) && gates@[j].3 == w by {
                    if exists|j: int| 0 <= j < i + 1 && #[trigger] misplaced(gates@, j) && gates@[j].3 == w {
                        let j = choose|j: int| 0 <= j < i + 1 && #[trigger] misplaced(gates@, j) && gates@[j].3 == w;
                        assert(j != i);
                    }
                }
            }
        }
        i += 1;
    }
    // pick the listed keys in increasing order, each once
    let mut r: Vec<u32> = Vec::new();
    loop
        invariant
            forall|w: u32| bad@.contains(w) <==> is_misplaced_output(gates@, w),
            forall|a: int, b: int| 0 <= a < b < r@.len() ==> r@[a] < r@[b],
            forall|w: u32| r@.contains(w) ==> bad@.contains(w),
            forall|w: u32| bad@.contains(w) && r@.len() > 0 && w <= r@.last() ==> r@.contains(w),
        decreases bad@.len() - r@.len(),
    {
        let mut next: Option<u32> = None;
        let mut j: usize = 0;
        while j < bad.len()
            invariant
                j <= bad@.len(),
                forall|x: int| 0 <= x < j && (r@.len() == 0 || bad@[x] > r@.last()) ==> next is Some && next->0 <= #[trigger] bad@[x],
                next is Some ==> bad@.contains(next->0) && (r@.len() == 0 || next->0 > r@.last()),
            decreases bad@.len() - j,
        {
            let w = bad[j];
            if r.len() == 0 || w > r[r.len() - 1] {
                match next {
                    None => next = Some(w),
                    Some(m) => if w < m {
                        next = Some(w);
                    },
                }
            }
            j += 1;
        }
        match next {
            None => {
                proof {
                    assert forall|w: u32| bad@.contains(w) implies r@.contains(w) by {
                        let x = choose|x: int| 0 <= x < bad@.len() && bad@[x] == w;
                        assert(r@.len() > 0 && bad@[x] <= r@.last());
                    }
                    assert forall|w: u32| r@.contains(w) <==> is_misplaced_output(gates@, w) by {}
                    lemma_distinct_len(r@, bad@);
                }
                return r;
            },
            Some(m) => {
                let ghost before = r@;
                proof {
                    lemma_distinct_len(r@, bad@);
                    assert(!before.contains(m));
                }
                r.push(m);
                proof {
                    assert forall|w: u32| r@.contains(w) implies bad@.contains(w) by {
                        let x = choose|x: int| 0 <= x < r@.len() && r@[x] == w;
                        if x < before.len() {
                            assert(before.contains(w));
                        }
                    }
                    assert forall|w: u32| bad@.contains(w) && r@.len() > 0 && w <= r@.last() implies r@.contains(w) by {
                        if w == m {
                            assert(r@[before.len() as int] == m);
                        } else if before.len() > 0 && w <= before.last() {
                            let x = choose|x: int| 0 <= x < before.len() && before[x] == w;
                            assert(r@[x] == w);
                        } else {
                            let x = choose|x: int| 0 <= x < bad@.len() && bad@[x] == w;
                            assert(bad@[x] >= m);
                        }
                    }
                }
            },
        }
    }
}

/// A strictly increasing list drawn from `b` is no longer than `b`, and shorter where
/// some element of `b` is missing from it.
proof fn lemma_distinct_len(r: Seq<u32>, b: Seq<u32>)
    requires
        forall|x: int, y: int| 0 <= x < y < r.len() ==> r[x] < r[y],
        forall|w: u32| r.contains(w) ==> b.contains(w),
    ensures
        r.len() <= b.len(),
        (exists|w: u32| b.contains(w) && !r.contains(w)) ==> r.len() < b.len(),
{
    broadcast use vstd::seq_lib::seq_to_set_is_finite;

    let rs = r.to_set();
    let bs = b.to_set();
    assert(r.no_duplicates()) by {
        assert forall|x: int, y: int| 0 <= x < r.len() && 0 <= y < r.len() && x != y implies r[x] != r[y] by {
            if x < y {
                assert(r[x] < r[y]);
            } else {
                assert(r[y] < r[x]);
            }
        }
    }
    r.unique_seq_to_set();
    b.lemma_cardinality_of_set();
    assert(rs.subset_of(bs));
    vstd::set_lib::lemma_len_subset(rs, bs);
    if exists|w: u32| b.contains(w) && !r.contains(w) {
        let w = choose|w: u32| b.contains(w) && !r.contains(w);
        assert(bs.contains(w) && !rs.contains(w));
        vstd::set_lib::lemma_len_subset(rs, bs.remove(w));
    }
}

fn join_names(keys: &Vec<u32>) -> (r: Vec<u8>)
    ensures
        r@ == names_joined(keys@),
{
    let mut r: Vec<u8> = Vec::new();
    let mut i: usize = 0;
    while i < keys.len()
        invariant
            i <= keys@.len(),
            r@ == names_joined(keys@.subrange(0, i as int)),
        decreases keys@.len() - i,
    {
        let k = keys[i];
        if i > 0 {
            r.push(44);
        }
        r.push((k / 65536) as u8);
        r.push(((k / 256) % 256) as u8);
        r.push((k % 256) as u8);
        proof {
            let s = keys@.subrange(0, i + 1);
            assert(s.drop_last() =~= keys@.subrange(0, i as int));
            assert(r@ =~= names_joined(s));
        }
        i += 1;
    }
    assert(keys@.subrange(0, keys@.len() as int) =~= keys@);
    r
}

/// The names, sorted and joined by commas, of the wires that gates breaking a rule of
/// the ripple-carry adder set; `None` where a line cannot be read or a name is not
/// ASCII.
pub fn part_two(input: &str) -> (r: Option<String>)
    ensures
        match r {
            Some(s) => network_valid(input.spec_bytes()) && exists|keys: Seq<u32>|
                #[trigger] lists_misplaced(
                    gates_of(split_lines(input.spec_bytes()), split_lines(input.spec_bytes()).len() as int),
                    keys,
                ) && s@ == ascii_chars(names_joined(keys)),
            None => !network_valid(input.spec_bytes()) || exists|keys: Seq<u32>|
                #[trigger] lists_misplaced(
                    gates_of(split_lines(input.spec_bytes()), split_lines(input.spec_bytes()).len() as int),
                    keys,
                ) && exists|i: int| 0 <= i < names_joined(keys).len() && names_joined(keys)[i] >= 128,
        },
{
    let (_m, gates) = match read_network(input) {
        Some(n) => n,
        None => return None,
    };
    let keys = misplaced_outputs(&gates);
    let bytes = join_names(&keys);
    let mut i: usize = 0;
    while i < bytes.len()
        invariant
            i <= bytes@.len(),
            bytes@ == names_joined(keys@),
            lists_misplaced(gates@, keys@),
            network_valid(input.spec_bytes()),
            gates@ == gates_of(split_lines(input.spec_bytes()), split_lines(input.spec_bytes()).len() as int),
            forall|j: int| 0 <= j < i ==> #[trigger] bytes@[j] < 128,
        decreases bytes@.len() - i,
    {
        if bytes[i] >= 128 {
            assert(names_joined(keys@)[i as int] >= 128);
            return None;
        }
        i += 1;
    }
    assert(lists_misplaced(gates@, keys@));
    Some(ascii_string(bytes))
}

} // verus!
