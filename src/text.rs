//! Splitting puzzle text into lines and reading decimal numbers.
use vstd::prelude::*;

verus! {

pub const NEWLINE: u8 = 10;

/// `r` is the answer `total` where the input is `valid` and the answer fits in a
/// `usize`, and `None` otherwise.
pub open spec fn usize_answer(r: Option<usize>, valid: bool, total: nat) -> bool {
    match r {
        Some(v) => valid && v as nat == total,
        None => !valid || total > usize::MAX,
    }
}

/// `r` is the answer `total` where the input is `valid` and the answer fits in a
/// `u32`, and `None` otherwise.
pub open spec fn u32_answer(r: Option<u32>, valid: bool, total: nat) -> bool {
    match r {
        Some(v) => valid && v as nat == total,
        None => !valid || total > u32::MAX,
    }
}

/// `r` is the answer `total` where the input is `valid` and the answer fits in a
/// `u64`, and `None` otherwise.
pub open spec fn u64_answer(r: Option<u64>, valid: bool, total: nat) -> bool {
    match r {
        Some(v) => valid && v as nat == total,
        None => !valid || total > u64::MAX,
    }
}

/// The contents of each of a sequence of byte vectors.
pub open spec fn views(v: Seq<Vec<u8>>) -> Seq<Seq<u8>> {
    v.map_values(|x: Vec<u8>| x@)
}

/// The lines finished, and the line under way, after reading the first `n` bytes of `s`.
pub open spec fn scan_lines(s: Seq<u8>, n: int) -> (Seq<Seq<u8>>, Seq<u8>)
    decreases n,
{
    if n <= 0 {
        (seq![], seq![])
    } else {
        let (done, cur) = scan_lines(s, n - 1);
        if s[n - 1] == NEWLINE {
            (done.push(cur), seq![])
        } else {
            (done, cur.push(s[n - 1]))
        }
    }
}

/// The lines of `s`: the pieces between newlines, where a final newline ends the last line.
pub open spec fn split_lines(s: Seq<u8>) -> Seq<Seq<u8>> {
    let (done, cur) = scan_lines(s, s.len() as int);
    if cur.len() == 0 {
        done
    } else {
        done.push(cur)
    }
}

/// Cuts `s` into its lines.
pub fn lines(s: &[u8]) -> (r: Vec<Vec<u8>>)
    ensures
        views(r@) == split_lines(s@),
{
    let mut done: Vec<Vec<u8>> = Vec::new();
    let mut cur: Vec<u8> = Vec::new();
    let mut i: usize = 0;
    while i < s.len()
        invariant
            i <= s@.len(),
            (views(done@), cur@) == scan_lines(s@, i as int),
        decreases s@.len() - i,
    {
        if s[i] == NEWLINE {
            let ghost before = views(done@);
            let line = cur;
            cur = Vec::new();
            done.push(line);
            assert(views(done@) =~= before.push(line@));
        } else {
            cur.push(s[i]);
        }
        i += 1;
    }
    assert(s@.len() == i);
    if cur.len() > 0 {
        let ghost before = views(done@);
        let ghost last = cur@;
        done.push(cur);
        assert(views(done@) =~= before.push(last));
    }
    done
}

} // verus!

verus! {

pub const DIGIT_ZERO: u8 = 48;

pub open spec fn is_digit(b: u8) -> bool {
    48 <= b && b <= 57
}

/// The numbers read, and the one under way, after the first `n` bytes of `s`, where a
/// number is a run of decimal digits and every other byte separates; `None` once a
/// number exceeds 64 bits.
pub open spec fn scan_numbers(s: Seq<u8>, n: int) -> Option<(Seq<u64>, Option<u64>)>
    decreases n,
{
    if n <= 0 {
        Some((seq![], None))
    } else {
        match scan_numbers(s, n - 1) {
            None => None,
            Some((done, cur)) => {
                let b = s[n - 1];
                if is_digit(b) {
                    let c: nat = match cur {
                        Some(c) => c as nat,
                        None => 0,
                    };
                    let next = c * 10 + (b - DIGIT_ZERO) as nat;
                    if next > u64::MAX {
                        None
                    } else {
                        Some((done, Some(next as u64)))
                    }
                } else {
                    match cur {
                        Some(c) => Some((done.push(c), None)),
                        None => Some((done, None)),
                    }
                }
            },
        }
    }
}

/// The decimal numbers written in `s`, in order; `None` where one exceeds 64 bits.
pub open spec fn parse_numbers(s: Seq<u8>) -> Option<Seq<u64>> {
    match scan_numbers(s, s.len() as int) {
        None => None,
        Some((done, cur)) => Some(
            match cur {
                Some(c) => done.push(c),
                None => done,
            },
        ),
    }
}

/// Reads the decimal numbers written in `s`.
pub fn numbers(s: &[u8]) -> (r: Option<Vec<u64>>)
    ensures
        r is Some <==> parse_numbers(s@) is Some,
        r is Some ==> r->0@ == parse_numbers(s@)->0,
{
    let mut done: Vec<u64> = Vec::new();
    let mut cur: Option<u64> = None;
    let mut i: usize = 0;
    while i < s.len()
        invariant
            i <= s@.len(),
            scan_numbers(s@, i as int) == Some((done@, cur)),
        decreases s@.len() - i,
    {
        let b = s[i];
        if DIGIT_ZERO <= b && b <= 57 {
            let c: u64 = match cur {
                Some(c) => c,
                None => 0,
            };
            let next = match c.checked_mul(10) {
                Some(x) => x.checked_add((b - DIGIT_ZERO) as u64),
                None => None,
            };
            match next {
                Some(x) => cur = Some(x),
                None => {
                    assert(scan_numbers(s@, i + 1) is None);
                    proof {
                        lemma_scan_stays_none(s@, i + 1, s@.len() as int);
                    }
                    return None;
                },
            }
        } else {
            match cur {
                Some(c) => {
                    done.push(c);
                    cur = None;
                },
                None => {},
            }
        }
        i += 1;
    }
    match cur {
        Some(c) => done.push(c),
        None => {},
    }
    Some(done)
}

proof fn lemma_scan_stays_none(s: Seq<u8>, k: int, n: int)
    requires
        1 <= k <= n,
        scan_numbers(s, k) is None,
    ensures
        scan_numbers(s, n) is None,
    decreases n - k,
{
    if k < n {
        lemma_scan_stays_none(s, k, n - 1);
    }
}

/// The characters of a sequence of ASCII bytes.
pub open spec fn ascii_chars(b: Seq<u8>) -> Seq<char> {
    b.map_values(|x: u8| x as char)
}

/// Relies on `String::from_utf8`: bytes that are all ASCII are valid UTF-8 and read
/// as the same characters.
#[verifier::external_body]
pub(crate) fn ascii_string(bytes: Vec<u8>) -> (r: String)
    requires
        forall|i: int| 0 <= i < bytes@.len() ==> #[trigger] bytes@[i] < 128,
    ensures
        r@ == ascii_chars(bytes@),
{
    String::from_utf8(bytes).unwrap_or_default()
}

} // verus!
