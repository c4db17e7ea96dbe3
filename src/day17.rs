//! A machine with three registers and eight instructions, and a search for a start
//! value of register A that makes a program print itself.
use vstd::prelude::*;
use vstd::arithmetic::power2::pow2;
use crate::text::{ascii_chars, ascii_string, numbers, parse_numbers};
use vstd::string::StringSliceAdditionalSpecFns;

verus! {

/// A running machine: registers, program counter, the program, and what it printed.
#[derive(Debug, PartialEq)]
pub struct MachineState {
    pub a: u64,
    pub b: u64,
    pub c: u64,
    pub pc: usize,
    pub memory: Vec<u64>,
    pub output: Vec<u64>,
}

/// The mathematical state of a machine.
pub struct Vm {
    pub a: u64,
    pub b: u64,
    pub c: u64,
    pub pc: nat,
    pub memory: Seq<u64>,
    pub output: Seq<u64>,
}

impl View for MachineState {
    type V = Vm;

    open spec fn view(&self) -> Vm {
        Vm {
            a: self.a,
            b: self.b,
            c: self.c,
            pc: self.pc as nat,
            memory: self.memory@,
            output: self.output@,
        }
    }
}

/// `a` divided by two to the power `k`, rounded down.
pub open spec fn divide(a: u64, k: u64) -> u64 {
    (a as nat / pow2(k as nat)) as u64
}

/// The value of a combo operand: 0 to 3 stand for themselves, 4 to 6 for the
/// registers A, B and C; any other is invalid.
pub open spec fn combo(m: Vm, op: u64) -> Option<u64> {
    if op <= 3 {
        Some(op)
    } else if op == 4 {
        Some(m.a)
    } else if op == 5 {
        Some(m.b)
    } else if op == 6 {
        Some(m.c)
    } else {
        None
    }
}

/// One instruction; `None` where the machine halts: the counter is past the last
/// full instruction, the instruction or its combo operand is invalid, or a jump
/// leaves the addressable range.
pub open spec fn step(m: Vm) -> Option<Vm> {
    if m.pc + 1 >= m.memory.len() {
        None
    } else {
        let inst = m.memory[m.pc as int];
        let op = m.memory[m.pc + 1int];
        let next = m.pc + 2;
        if inst == 1 {
            Some(Vm { b: m.b ^ op, pc: next, ..m })
        } else if inst == 3 {
            if m.a != 0 {
                if op as nat > usize::MAX {
                    None
                } else {
                    Some(Vm { pc: op as nat, ..m })
                }
            } else {
                Some(Vm { pc: next, ..m })
            }
        } else if inst == 4 {
            Some(Vm { b: m.b ^ m.c, pc: next, ..m })
        } else if inst > 7 {
            None
        } else {
            match combo(m, op) {
                None => None,
                Some(v) => if inst == 0 {
                    Some(Vm { a: divide(m.a, v), pc: next, ..m })
                } else if inst == 2 {
                    Some(Vm { b: v % 8, pc: next, ..m })
                } else if inst == 5 {
                    Some(Vm { output: m.output.push(v % 8), pc: next, ..m })
                } else if inst == 6 {
                    Some(Vm { b: divide(m.a, v), pc: next, ..m })
                } else {
                    Some(Vm { c: divide(m.a, v), pc: next, ..m })
                },
            }
        }
    }
}

/// The state after at most `fuel` instructions.
pub open spec fn run(m: Vm, fuel: nat) -> Vm
    decreases fuel,
{
    if fuel == 0 {
        m
    } else {
        match step(m) {
            None => m,
            Some(n) => run(n, (fuel - 1) as nat),
        }
    }
}

/// The most instructions `run_machine` carries out.
pub const STEP_LIMIT: u64 = 0xffff_ffff_ffff_ffff;

/// `a / 2^k`, rounded down.
fn divide_exec(a: u64, k: u64) -> (r: u64)
    ensures
        r == divide(a, k),
{
    if k < 64 {
        proof {
            vstd::bits::lemma_u64_shr_is_div(a, k);
        }
        a >> k
    } else {
        proof {
            vstd::arithmetic::power2::lemma2_to64();
            if k > 64 {
                vstd::arithmetic::power2::lemma_pow2_strictly_increases(64, k as nat);
            }
            assert(a as nat / pow2(k as nat) == 0) by (nonlinear_arith)
                requires
                    a < pow2(k as nat),
            ;
        }
        0
    }
}

fn combo_value(m: &MachineState, op: u64) -> (r: Option<u64>)
    ensures
        r == combo(m@, op),
{
    if op <= 3 {
        Some(op)
    } else if op == 4 {
        Some(m.a)
    } else if op == 5 {
        Some(m.b)
    } else if op == 6 {
        Some(m.c)
    } else {
        None
    }
}

/// Carries out one instruction; false, with the machine unchanged, where it halts.
fn step_machine(m: &mut MachineState) -> (r: bool)
    ensures
        r == step(old(m)@) is Some,
        r ==> final(m)@ == step(old(m)@)->0,
        !r ==> final(m)@ == old(m)@,
{
    let len = m.memory.len();
    if m.pc >= len || len - m.pc < 2 {
        return false;
    }
    let inst = m.memory[m.pc];
    let op = m.memory[m.pc + 1];
    let next = m.pc + 2;
    if inst == 1 {
        m.b = m.b ^ op;
        m.pc = next;
    } else if inst == 3 {
        if m.a != 0 {
            if op > usize::MAX as u64 {
                return false;
            }
            m.pc = op as usize;
        } else {
            m.pc = next;
        }
    } else if inst == 4 {
        m.b = m.b ^ m.c;
        m.pc = next;
    } else if inst > 7 {
        return false;
    } else {
        match combo_value(m, op) {
            None => return false,
            Some(v) => {
                if inst == 0 {
                    m.a = divide_exec(m.a, v);
                } else if inst == 2 {
                    m.b = v % 8;
                } else if inst == 5 {
                    m.output.push(v % 8);
                } else if inst == 6 {
                    m.b = divide_exec(m.a, v);
                } else {
                    m.c = divide_exec(m.a, v);
                }
                m.pc = next;
            },
        }
    }
    true
}

/// Runs the machine for at most `fuel` instructions; true where it halted.
fn run_for(m: &mut MachineState, fuel: u64) -> (r: bool)
    ensures
        final(m)@ == run(old(m)@, fuel as nat),
        r ==> step(final(m)@) is None,
{
    let mut k: u64 = 0;
    while k < fuel
        invariant
            k <= fuel,
            run(old(m)@, fuel as nat) == run(m@, (fuel - k) as nat),
        decreases fuel - k,
    {
        if !step_machine(m) {
            return true;
        }
        k += 1;
    }
    false
}

/// Runs the machine until it halts, for at most `STEP_LIMIT` instructions.
pub fn run_machine(machine: &mut MachineState)
    ensures
        final(machine)@ == run(old(machine)@, STEP_LIMIT as nat),
{
    run_for(machine, STEP_LIMIT);
}

/// The machine that `text` describes: the first three numbers are the registers, and
/// the rest is the program; `None` where there are fewer than three.
pub open spec fn initial(text: Seq<u8>) -> Option<Vm> {
    match parse_numbers(text) {
        Some(nums) => if nums.len() >= 3 {
            Some(
                Vm {
                    a: nums[0],
                    b: nums[1],
                    c: nums[2],
                    pc: 0,
                    memory: nums.subrange(3, nums.len() as int),
                    output: seq![],
                },
            )
        } else {
            None
        },
        None => None,
    }
}

/// Values below 8 written as digits and separated by commas.
pub open spec fn joined(out: Seq<u64>) -> Seq<u8>
    decreases out.len(),
{
    if out.len() == 0 {
        seq![]
    } else if out.len() == 1 {
        seq![(48 + out[0]) as u8]
    } else {
        joined(out.subrange(0, out.len() - 1)) + seq![44u8, (48 + out.last()) as u8]
    }
}

fn parse_machine(input: &str) -> (r: Option<MachineState>)
    ensures
        match r {
            Some(m) => initial(input.spec_bytes()) == Some(m@),
            None => initial(input.spec_bytes()) is None,
        },
{
    let nums = match numbers(input.as_bytes()) {
        Some(n) => n,
        None => return None,
    };
    if nums.len() < 3 {
        return None;
    }
    let mut memory: Vec<u64> = Vec::new();
    let mut i: usize = 3;
    while i < nums.len()
        invariant
            3 <= i <= nums@.len(),
            memory@ == nums@.subrange(3, i as int),
        decreases nums@.len() - i,
    {
        memory.push(nums[i]);
        i += 1;
        assert(memory@ =~= nums@.subrange(3, i as int));
    }
    let m = MachineState { a: nums[0], b: nums[1], c: nums[2], pc: 0, memory, output: Vec::new() };
    assert(m@ =~= initial(input.spec_bytes())->0);
    Some(m)
}

/// Writes values below 8 as digits separated by commas.
fn join_output(out: &Vec<u64>) -> (r: Vec<u8>)
    requires
        forall|i: int| 0 <= i < out@.len() ==> #[trigger] out@[i] < 8,
    ensures
        r@ == joined(out@),
        forall|i: int| 0 <= i < r@.len() ==> #[trigger] r@[i] < 128,
{
    let mut r: Vec<u8> = Vec::new();
    let mut i: usize = 0;
    while i < out.len()
        invariant
            forall|i: int| 0 <= i < out@.len() ==> #[trigger] out@[i] < 8,
            i <= out@.len(),
            r@ == joined(out@.subrange(0, i as int)),
            forall|j: int| 0 <= j < r@.len() ==> #[trigger] r@[j] < 128,
        decreases out@.len() - i,
    {
        let v = out[i];
        if i > 0 {
            r.push(44);
        }
        r.push((48 + v) as u8);
        proof {
            let s = out@.subrange(0, i + 1);
            assert(s.subrange(0, s.len() - 1) =~= out@.subrange(0, i as int));
            assert(s.last() == v);
            if i == 0 {
                assert(r@ =~= joined(s));
            } else {
                assert(r@ =~= joined(s));
            }
        }
        i += 1;
    }
    assert(out@.subrange(0, out@.len() as int) =~= out@);
    r
}

proof fn lemma_outputs_below_eight(m: Vm, fuel: nat)
    requires
        forall|i: int| 0 <= i < m.output.len() ==> #[trigger] m.output[i] < 8,
    ensures
        forall|i: int| 0 <= i < run(m, fuel).output.len() ==> #[trigger] run(m, fuel).output[i] < 8,
    decreases fuel,
{
    if fuel > 0 {
        match step(m) {
            None => {},
            Some(n) => {
                let inst = m.memory[m.pc as int];
                let op = m.memory[m.pc + 1int];
                if inst == 5 {
                    let v = combo(m, op)->0;
                    assert(n.output == m.output.push(v % 8));
                } else {
                    assert(n.output == m.output);
                }
                assert forall|i: int| 0 <= i < n.output.len() implies #[trigger] n.output[i] < 8 by {
                    if i < m.output.len() {
                        assert(n.output[i] == m.output[i]);
                    }
                }
                lemma_outputs_below_eight(n, (fuel - 1) as nat);
                assert(run(m, fuel) == run(n, (fuel - 1) as nat));
            },
        }
    }
}

/// What the program in `input` prints, as digits separated by commas, after running
/// until it halts or for `STEP_LIMIT` instructions; `None` where `input` holds fewer
/// than three numbers.
pub fn part_one(input: &str) -> (r: Option<String>)
    ensures
        match r {
            Some(s) => initial(input.spec_bytes()) is Some && s@ == ascii_chars(
                joined(run(initial(input.spec_bytes())->0, STEP_LIMIT as nat).output),
            ),
            None => initial(input.spec_bytes()) is None,
        },
{
    let mut m = match parse_machine(input) {
        Some(m) => m,
        None => return None,
    };
    let ghost m0 = m@;
    proof {
        lemma_outputs_below_eight(m0, STEP_LIMIT as nat);
    }
    run_machine(&mut m);
    assert(m.output@ == run(m0, STEP_LIMIT as nat).output);
    let bytes = join_output(&m.output);
    Some(ascii_string(bytes))
}

/// The machine halts, within some number of instructions, having printed its program.
pub open spec fn prints_itself(m: Vm) -> bool {
    exists|fuel: nat| step(#[trigger] run(m, fuel)) is None && run(m, fuel).output == m.memory
}

/// The most instructions one trial run of the search carries out.
pub const TRIAL_STEPS: u64 = 1_000_000;

/// Whether `out` equals the last `k` values of `mem`.
fn ends_with(mem: &Vec<u64>, out: &Vec<u64>, k: usize) -> (r: bool)
    requires
        k <= mem@.len(),
    ensures
        r == (out@ == mem@.subrange(mem@.len() - k, mem@.len() as int)),
{
    if out.len() != k {
        return false;
    }
    let ml = mem.len();
    let start = ml - k;
    let mut i: usize = 0;
    while i < k
        invariant
            out@.len() == k,
            k <= mem@.len(),
            ml == mem@.len(),
            start == mem@.len() - k,
            i <= k,
            forall|j: int| 0 <= j < i ==> out@[j] == mem@[start + j],
        decreases k - i,
    {
        if out[i] != mem[start + i] {
            return false;
        }
        i += 1;
    }
    assert(out@ =~= mem@.subrange(mem@.len() - k, mem@.len() as int));
    true
}

fn copy_program(v: &Vec<u64>) -> (r: Vec<u64>)
    ensures
        r@ == v@,
{
    let mut r: Vec<u64> = Vec::new();
    let mut i: usize = 0;
    while i < v.len()
        invariant
            i <= v@.len(),
            r@ == v@.subrange(0, i as int),
        decreases v@.len() - i,
    {
        r.push(v[i]);
        i += 1;
        assert(r@ =~= v@.subrange(0, i as int));
    }
    assert(r@ =~= v@);
    r
}

/// Run from register A set to `a`, the machine halts within `TRIAL_STEPS`
/// instructions having printed the last `k` values of its program.
pub open spec fn trial_ok(m: Vm, a: u64, k: int) -> bool {
    let end = run(Vm { a: a, ..m }, TRIAL_STEPS as nat);
    step(end) is None && end.output == m.memory.subrange(m.memory.len() - k, m.memory.len() as int)
}

/// The values `8·c + e`, `e < d`, that fit in 64 bits and pass the trial for `k` values.
pub open spec fn extensions(m: Vm, c: u64, k: int, d: int) -> Seq<u64>
    decreases d,
{
    if d <= 0 || c > (u64::MAX - 7) / 8 {
        seq![]
    } else {
        let a = (c * 8 + d - 1) as u64;
        extensions(m, c, k, d - 1) + if trial_ok(m, a, k) {
            seq![a]
        } else {
            seq![]
        }
    }
}

/// One round of the search: every candidate extended by one octal digit, in order,
/// keeping the values whose run prints the program's last `k` values.
pub open spec fn round(m: Vm, cands: Seq<u64>, k: int) -> Seq<u64>
    decreases cands.len(),
{
    if cands.len() == 0 {
        seq![]
    } else {
        round(m, cands.drop_last(), k) + extensions(m, cands.last(), k, 8)
    }
}

/// The candidates after `k` rounds, starting from 0.
pub open spec fn candidates(m: Vm, k: nat) -> Seq<u64>
    decreases k,
{
    if k == 0 {
        seq![0u64]
    } else {
        round(m, candidates(m, (k - 1) as nat), k as int)
    }
}

/// The least value of `s`.
pub open spec fn least(s: Seq<u64>) -> Option<u64>
    decreases s.len(),
{
    if s.len() == 0 {
        None
    } else {
        match least(s.drop_last()) {
            None => Some(s.last()),
            Some(b) => Some(if s.last() < b { s.last() } else { b }),
        }
    }
}

/// The answer of the digit search: the least value of register A that survives one
/// round per program value.
pub open spec fn search_answer(m: Vm) -> Option<u64> {
    least(candidates(m, m.memory.len()))
}

proof fn lemma_least_member(s: Seq<u64>)
    ensures
        least(s) matches Some(x) ==> s.contains(x) && forall|i: int| 0 <= i < s.len() ==> x <= #[trigger] s[i],
        s.len() > 0 ==> least(s) is Some,
    decreases s.len(),
{
    if s.len() > 0 {
        let t = s.drop_last();
        lemma_least_member(t);
        if let Some(x) = least(s) {
            if x == s.last() {
                assert(s[s.len() - 1] == x);
            } else {
                let y = least(t)->0;
                let j = choose|j: int| 0 <= j < t.len() && t[j] == y;
                assert(s[j] == x);
            }
            assert forall|i: int| 0 <= i < s.len() implies x <= #[trigger] s[i] by {
                if i < t.len() {
                    assert(s[i] == t[i]);
                }
            }
        }
    }
}

proof fn lemma_extensions_pass(m: Vm, c: u64, k: int, d: int)
    ensures
        forall|i: int| 0 <= i < extensions(m, c, k, d).len() ==> trial_ok(m, #[trigger] extensions(m, c, k, d)[i], k),
    decreases d,
{
    if d > 0 && c <= (u64::MAX - 7) / 8 {
        lemma_extensions_pass(m, c, k, d - 1);
        let pre = extensions(m, c, k, d - 1);
        assert forall|i: int| 0 <= i < extensions(m, c, k, d).len() implies trial_ok(m, #[trigger] extensions(m, c, k, d)[i], k) by {
            if i < pre.len() {
                assert(extensions(m, c, k, d)[i] == pre[i]);
            }
        }
    }
}

proof fn lemma_round_pass(m: Vm, cands: Seq<u64>, k: int)
    ensures
        forall|i: int| 0 <= i < round(m, cands, k).len() ==> trial_ok(m, #[trigger] round(m, cands, k)[i], k),
    decreases cands.len(),
{
    if cands.len() > 0 {
        lemma_round_pass(m, cands.drop_last(), k);
        lemma_extensions_pass(m, cands.last(), k, 8);
        let pre = round(m, cands.drop_last(), k);
        let ext = extensions(m, cands.last(), k, 8);
        assert forall|i: int| 0 <= i < round(m, cands, k).len() implies trial_ok(m, #[trigger] round(m, cands, k)[i], k) by {
            if i < pre.len() {
                assert(round(m, cands, k)[i] == pre[i]);
            } else {
                assert(round(m, cands, k)[i] == ext[i - pre.len()]);
            }
        }
    }
}

/// Whatever the search returns prints the program: it passed the trial for every value.
proof fn lemma_answer_prints(m: Vm)
    requires
        m.output.len() == 0,
        m.pc == 0,
        search_answer(m) is Some,
    ensures
        prints_itself(Vm { a: search_answer(m)->0, ..m }),
{
    let n = m.memory.len();
    let cs = candidates(m, n);
    lemma_least_member(cs);
    let x = search_answer(m)->0;
    let v = Vm { a: x, ..m };
    assert(m.output =~= Seq::<u64>::empty());
    if n == 0 {
        assert(run(v, 0) == v);
        assert(v.output =~= v.memory);
        assert(step(run(v, 0)) is None && run(v, 0).output == v.memory);
    } else {
        lemma_round_pass(m, candidates(m, (n - 1) as nat), n as int);
        let j = choose|j: int| 0 <= j < cs.len() && cs[j] == x;
        assert(trial_ok(m, cs[j], n as int));
        assert(m.memory.subrange(0, n as int) =~= m.memory);
        let f = TRIAL_STEPS as nat;
        assert(step(run(v, f)) is None && run(v, f).output == v.memory);
    }
}

/// Runs the machine from `m` with register A set to `a`; whether it halts within
/// `TRIAL_STEPS` instructions having printed the last `k` values of its program.
fn trial(m: &MachineState, a: u64, k: usize) -> (r: bool)
    requires
        k <= m.memory@.len(),
    ensures
        r == trial_ok(m@, a, k as int),
{
    let mut t = MachineState {
        a: a,
        b: m.b,
        c: m.c,
        pc: m.pc,
        memory: copy_program(&m.memory),
        output: copy_program(&m.output),
    };
    assert(t@ == Vm { a: a, ..m@ });
    let ghost start = t@;
    let ran_out = !run_for(&mut t, TRIAL_STEPS);
    let ghost end = t@;
    assert(end == run(start, TRIAL_STEPS as nat));
    // a run that used every step may still have halted on the last one
    let halted = !ran_out || !step_machine(&mut t);
    if !halted {
        return false;
    }
    assert(t@ == end);
    ends_with(&m.memory, &t.output, k)
}

/// The value of register A that the digit search of the program in `input` finds:
/// starting from 0, each round extends every candidate by one octal digit (three low
/// bits) and keeps those whose run prints one more of the program's last values; the
/// answer is the least candidate after one round per program value, and it makes the
/// program print itself. `None` where `input` holds fewer than three numbers or no
/// candidate survives.
pub fn part_two(input: &str) -> (r: Option<u64>)
    ensures
        match initial(input.spec_bytes()) {
            None => r is None,
            Some(m) => r == search_answer(m),
        },
        r matches Some(a) ==> prints_itself(Vm { a: a, ..initial(input.spec_bytes())->0 }),
{
    let m = match parse_machine(input) {
        Some(m) => m,
        None => return None,
    };
    let ghost mv = m@;
    let n = m.memory.len();
    let mut cands: Vec<u64> = vec![0];
    assert(cands@ =~= candidates(mv, 0));
    let mut k: usize = 0;
    while k < n
        invariant
            k <= n,
            n == m.memory@.len(),
            mv == m@,
            cands@ == candidates(mv, k as nat),
        decreases n - k,
    {
        let mut next: Vec<u64> = Vec::new();
        let mut i: usize = 0;
        assert(cands@.subrange(0, 0) =~= Seq::<u64>::empty());
        while i < cands.len()
            invariant
                k < n,
                n == m.memory@.len(),
                mv == m@,
                i <= cands@.len(),
                next@ == round(mv, cands@.subrange(0, i as int), k + 1),
            decreases cands@.len() - i,
        {
            let c = cands[i];
            let ghost pre = next@;
            proof {
                let sub = cands@.subrange(0, i + 1);
                assert(sub.drop_last() =~= cands@.subrange(0, i as int));
                assert(sub.last() == c);
            }
            if c <= (u64::MAX - 7) / 8 {
                let mut d: u64 = 0;
                while d < 8
                    invariant
                        k < n,
                        n == m.memory@.len(),
                        mv == m@,
                        c <= (u64::MAX - 7) / 8,
                        d <= 8,
                        next@ == pre + extensions(mv, c, k + 1, d as int),
                    decreases 8 - d,
                {
                    let a = c * 8 + d;
                    let ghost before = next@;
                    if trial(&m, a, k + 1) {
                        next.push(a);
                    }
                    proof {
                        assert(a == (c * 8 + (d + 1) - 1) as u64);
                        assert(next@ =~= pre + extensions(mv, c, k + 1, d + 1));
                    }
                    d += 1;
                }
            } else {
                assert(extensions(mv, c, k + 1, 8) =~= Seq::<u64>::empty());
                assert(next@ =~= pre + extensions(mv, c, k + 1, 8));
            }
            i += 1;
        }
        assert(cands@.subrange(0, cands@.len() as int) =~= cands@);
        cands = next;
        k += 1;
    }
    let mut best: Option<u64> = None;
    let mut i: usize = 0;
    assert(cands@.subrange(0, 0) =~= Seq::<u64>::empty());
    while i < cands.len()
        invariant
            i <= cands@.len(),
            best == least(cands@.subrange(0, i as int)),
        decreases cands@.len() - i,
    {
        let a = cands[i];
        proof {
            let sub = cands@.subrange(0, i + 1);
            assert(sub.drop_last() =~= cands@.subrange(0, i as int));
        }
        best = match best {
            None => Some(a),
            Some(b) => Some(if a < b { a } else { b }),
        };
        i += 1;
    }
    assert(cands@.subrange(0, cands@.len() as int) =~= cands@);
    proof {
        if best is Some {
            lemma_answer_prints(mv);
        }
    }
    best
}

} // verus!
