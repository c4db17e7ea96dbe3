//! A disk map: digits alternate between the length of a file and the length of the
//! free space after it, files numbered in order. Compacting moves file blocks, one by
//! one or whole files at a time, from the end of the disk to free space on the left;
//! the checksum adds up each block's position times its file's number.
use vstd::prelude::*;
use crate::text::is_digit;
use vstd::string::StringSliceAdditionalSpecFns;

verus! {

/// A disk block: the number of the file it belongs to, or `None` where it is free.
pub type Block = Option<u64>;

/// The digits of the disk map in `text`, other bytes skipped.
pub open spec fn disk_map(text: Seq<u8>) -> Seq<u8>
    decreases text.len(),
{
    if text.len() == 0 {
        seq![]
    } else if is_digit(text.last()) {
        disk_map(text.drop_last()).push((text.last() - 48) as u8)
    } else {
        disk_map(text.drop_last())
    }
}

/// The blocks that digit `k` of the map stands for.
pub open spec fn blocks_of(k: int, size: u8) -> Seq<Block> {
    if k % 2 == 0 {
        Seq::new(size as nat, |_i: int| Some((k / 2) as u64))
    } else {
        Seq::new(size as nat, |_i: int| None)
    }
}

/// The disk that the first `m` digits of `map` describe.
pub open spec fn layout(map: Seq<u8>, m: int) -> Seq<Block>
    decreases m,
{
    if m <= 0 {
        seq![]
    } else {
        layout(map, m - 1) + blocks_of(m - 1, map[m - 1])
    }
}

/// The first free block, or the length where every block is used.
pub open spec fn first_free(d: Seq<Block>) -> int
    decreases d.len(),
{
    if d.len() == 0 {
        0
    } else if d[0] is None {
        0
    } else {
        1 + first_free(d.drop_first())
    }
}

/// Compacting one block at a time: free blocks at the end are dropped, and the last
/// block moves into the leftmost free block, until no free block is left.
pub open spec fn compact(d: Seq<Block>) -> Seq<Block>
    decreases d.len(),
{
    if d.len() == 0 {
        d
    } else if d.last() is None {
        compact(d.drop_last())
    } else if first_free(d) < 0 || first_free(d) >= d.len() - 1 {
        d
    } else {
        compact(d.drop_last().update(first_free(d), d.last()))
    }
}

/// The sum of position times file number over the first `m` blocks.
pub open spec fn checksum(d: Seq<Block>, m: int) -> nat
    decreases m,
{
    if m <= 0 {
        0
    } else {
        checksum(d, m - 1) + match d[m - 1] {
            Some(id) => ((m - 1) * id) as nat,
            None => 0,
        }
    }
}

pub open spec fn full_checksum(d: Seq<Block>) -> nat {
    checksum(d, d.len() as int)
}

pub open spec fn disk_of(text: Seq<u8>) -> Seq<Block> {
    layout(disk_map(text), disk_map(text).len() as int)
}

proof fn lemma_first_free(d: Seq<Block>, i: int)
    requires
        0 <= i <= d.len(),
        forall|p: int| 0 <= p < i ==> #[trigger] d[p] is Some,
        i < d.len() ==> d[i] is None,
    ensures
        first_free(d) == i,
    decreases i,
{
    if i > 0 {
        let t = d.drop_first();
        assert forall|p: int| 0 <= p < i - 1 implies #[trigger] t[p] is Some by {
            assert(t[p] == d[p + 1]);
        }
        lemma_first_free(t, i - 1);
    }
}

/// Free blocks at the end of the disk change nothing after compacting.
pub proof fn trailing_free_blocks_do_not_matter(d: Seq<Block>, k: nat)
    ensures
        compact(d + Seq::new(k, |_i: int| None::<u64>)) == compact(d),
    decreases k,
{
    if k > 0 {
        let e = d + Seq::new(k, |_i: int| None::<u64>);
        assert(e.drop_last() =~= d + Seq::new((k - 1) as nat, |_i: int| None::<u64>));
        trailing_free_blocks_do_not_matter(d, (k - 1) as nat);
    } else {
        assert(d + Seq::new(k, |_i: int| None::<u64>) =~= d);
    }
}

proof fn lemma_checksum_monotone(d: Seq<Block>, k: int, m: int)
    requires
        k <= m,
    ensures
        checksum(d, k) <= checksum(d, m),
    decreases m - k,
{
    if k < m {
        lemma_checksum_monotone(d, k, m - 1);
    }
}

proof fn lemma_checksum_prefix(d: Seq<Block>, e: Seq<Block>, m: int)
    requires
        0 <= m <= d.len(),
        m <= e.len(),
        forall|p: int| 0 <= p < m ==> #[trigger] d[p] == e[p],
    ensures
        checksum(d, m) == checksum(e, m),
    decreases m,
{
    if m > 0 {
        lemma_checksum_prefix(d, e, m - 1);
    }
}

/// Reads the digits of the disk map.
fn read_map(s: &[u8]) -> (r: Vec<u8>)
    ensures
        r@ == disk_map(s@),
        forall|i: int| 0 <= i < r@.len() ==> #[trigger] r@[i] <= 9,
{
    let mut r: Vec<u8> = Vec::new();
    let mut i: usize = 0;
    while i < s.len()
        invariant
            i <= s@.len(),
            r@ == disk_map(s@.subrange(0, i as int)),
            forall|k: int| 0 <= k < r@.len() ==> #[trigger] r@[k] <= 9,
        decreases s@.len() - i,
    {
        let b = s[i];
        proof {
            assert(s@.subrange(0, i + 1).drop_last() =~= s@.subrange(0, i as int));
        }
        if 48 <= b && b <= 57 {
            r.push(b - 48);
        }
        i += 1;
    }
    assert(s@.subrange(0, s@.len() as int) =~= s@);
    r
}

/// Lays the disk out block by block.
fn build_disk(map: &Vec<u8>) -> (r: Vec<Block>)
    ensures
        r@ == layout(map@, map@.len() as int),
{
    let mut d: Vec<Block> = Vec::new();
    let mut k: usize = 0;
    while k < map.len()
        invariant
            k <= map@.len(),
            d@ == layout(map@, k as int),
        decreases map@.len() - k,
    {
        let size = map[k];
        let ghost before = d@;
        let block: Block = if k % 2 == 0 {
            Some((k / 2) as u64)
        } else {
            None
        };
        let mut j: u8 = 0;
        while j < size
            invariant
                j <= size,
                block == (if k % 2 == 0 { Some((k / 2) as u64) } else { None::<u64> }),
                d@ == before + Seq::new(j as nat, |_i: int| block),
            decreases size - j,
        {
            d.push(block);
            j += 1;
            assert(d@ =~= before + Seq::new(j as nat, |_i: int| block));
        }
        assert(d@ =~= layout(map@, k + 1));
        k += 1;
    }
    d
}

/// The checksum of the first `m` blocks, or `None` where it exceeds 64 bits.
fn checksum_of(d: &Vec<Block>, m: usize) -> (r: Option<u64>)
    requires
        m <= d@.len(),
    ensures
        match r {
            Some(c) => c as nat == checksum(d@, m as int),
            None => checksum(d@, m as int) > u64::MAX,
        },
{
    let mut acc: u64 = 0;
    let mut p: usize = 0;
    while p < m
        invariant
            m <= d@.len(),
            p <= m,
            acc as nat == checksum(d@, p as int),
        decreases m - p,
    {
        proof {
            lemma_checksum_monotone(d@, p + 1, m as int);
        }
        match d[p] {
            Some(id) => {
                let term = match (p as u64).checked_mul(id) {
                    Some(t) => t,
                    None => return None,
                };
                acc = match acc.checked_add(term) {
                    Some(a) => a,
                    None => return None,
                };
            },
            None => {},
        }
        p += 1;
    }
    Some(acc)
}

/// The checksum of the disk in `input` after compacting it block by block; `None`
/// where it exceeds 64 bits.
pub fn part_one(input: &str) -> (r: Option<u64>)
    ensures
        match r {
            Some(c) => c as nat == full_checksum(compact(disk_of(input.spec_bytes()))),
            None => full_checksum(compact(disk_of(input.spec_bytes()))) > u64::MAX,
        },
{
    let map = read_map(input.as_bytes());
    let mut d = build_disk(&map);
    let ghost orig = d@;
    assert(d@.subrange(0, d@.len() as int) =~= d@);
    let mut i: usize = 0;
    let mut j: usize = d.len();
    while i < j
        invariant
            j <= d@.len(),
            i <= j,
            forall|p: int| 0 <= p < i ==> #[trigger] d@[p] is Some,
            compact(orig) == compact(d@.subrange(0, j as int)),
            orig == disk_of(input.spec_bytes()),
        decreases j - i,
    {
        if d[i].is_some() {
            i += 1;
        } else if d[j - 1].is_none() {
            proof {
                let cur = d@.subrange(0, j as int);
                assert(cur.drop_last() =~= d@.subrange(0, j - 1));
            }
            j -= 1;
        } else {
            let ghost cur = d@.subrange(0, j as int);
            proof {
                lemma_first_free(cur, i as int);
            }
            let last = d[j - 1];
            d.set(i, last);
            proof {
                assert(cur.drop_last().update(i as int, cur.last()) =~= d@.subrange(0, j - 1));
            }
            j -= 1;
            i += 1;
        }
    }
    proof {
        let cur = d@.subrange(0, j as int);
        lemma_first_free(cur, j as int);
        if j > 0 {
            assert(cur.last() is Some);
        }
        assert(compact(cur) == cur);
        lemma_checksum_prefix(cur, d@, j as int);
    }
    checksum_of(&d, j)
}

/// The first block of file `id` at or after `from`, or the length where there is none.
pub open spec fn file_start(d: Seq<Block>, id: u64, from: int) -> int
    decreases d.len() - from,
{
    if from < 0 || from >= d.len() {
        d.len() as int
    } else if d[from] == Some(id) {
        from
    } else {
        file_start(d, id, from + 1)
    }
}

pub open spec fn all_free(d: Seq<Block>, p: int, size: int) -> bool {
    forall|x: int| p <= x < p + size ==> #[trigger] d[x] is None
}

/// The leftmost run of `size` free blocks that starts at or after `from` and ends by
/// `limit`; -1 where there is none.
pub open spec fn fit_from(d: Seq<Block>, size: int, limit: int, from: int) -> int
    decreases limit - from,
{
    if from < 0 || from + size > limit {
        -1
    } else if all_free(d, from, size) {
        from
    } else {
        fit_from(d, size, limit, from + 1)
    }
}

/// Moves file `id`, of `size` blocks, whole into the leftmost run of free blocks
/// before it that is long enough, if there is one.
pub open spec fn move_file(d: Seq<Block>, id: u64, size: int) -> Seq<Block> {
    let start = file_start(d, id, 0);
    let p = fit_from(d, size, start, 0);
    if size <= 0 || start >= d.len() || p < 0 {
        d
    } else {
        Seq::new(
            d.len(),
            |x: int|
                if p <= x < p + size {
                    Some(id)
                } else if start <= x < start + size {
                    None
                } else {
                    d[x]
                },
        )
    }
}

/// Moves files `k - 1` down to 0, each once, in that order.
pub open spec fn move_files(d: Seq<Block>, map: Seq<u8>, k: int) -> Seq<Block>
    decreases k,
{
    if k <= 0 {
        d
    } else {
        move_files(move_file(d, (k - 1) as u64, map[2 * (k - 1)] as int), map, k - 1)
    }
}

pub open spec fn file_count(map: Seq<u8>) -> int {
    (map.len() as int + 1) / 2
}

fn find_file(d: &Vec<Block>, id: u64) -> (r: usize)
    ensures
        r as int == file_start(d@, id, 0),
        r <= d@.len(),
{
    let mut i: usize = 0;
    while i < d.len()
        invariant
            i <= d@.len(),
            file_start(d@, id, 0) == file_start(d@, id, i as int),
        decreases d@.len() - i,
    {
        if d[i] == Some(id) {
            return i;
        }
        i += 1;
    }
    i
}

fn run_is_free(d: &Vec<Block>, p: usize, size: usize) -> (r: bool)
    requires
        p + size <= d@.len(),
    ensures
        r == all_free(d@, p as int, size as int),
{
    let _n = d.len();
    let stop = p + size;
    let mut x: usize = p;
    while x < stop
        invariant
            stop == p + size,
            p + size <= d@.len(),
            p <= x <= p + size,
            forall|y: int| p <= y < x ==> #[trigger] d@[y] is None,
        decreases p + size - x,
    {
        if d[x].is_some() {
            return false;
        }
        x += 1;
    }
    true
}

fn find_fit(d: &Vec<Block>, size: usize, limit: usize) -> (r: Option<usize>)
    requires
        limit <= d@.len(),
    ensures
        match r {
            Some(p) => fit_from(d@, size as int, limit as int, 0) == p && p + size <= limit,
            None => fit_from(d@, size as int, limit as int, 0) < 0,
        },
{
    if size > limit {
        return None;
    }
    let mut p: usize = 0;
    while p <= limit - size
        invariant
            limit <= d@.len(),
            size <= limit,
            p <= limit - size + 1,
            fit_from(d@, size as int, limit as int, 0) == fit_from(d@, size as int, limit as int, p as int),
        decreases limit - size + 1 - p,
    {
        if run_is_free(d, p, size) {
            return Some(p);
        }
        p += 1;
    }
    None
}

/// Moves file `id` as `move_file` says.
fn move_one(d: &mut Vec<Block>, id: u64, size: usize)
    requires
        size <= 9,
    ensures
        final(d)@ == move_file(old(d)@, id, size as int),
{
    let start = find_file(d, id);
    if size == 0 || start >= d.len() {
        return;
    }
    let p = match find_fit(d, size, start) {
        Some(p) => p,
        None => return,
    };
    let ghost orig = d@;
    let end = if d.len() - start >= size {
        start + size
    } else {
        d.len()
    };
    let mut x: usize = p;
    while x < p + size
        invariant
            d@.len() == orig.len(),
            p + size <= start,
            start < orig.len(),
            p <= x <= p + size,
            forall|y: int| 0 <= y < orig.len() ==> #[trigger] d@[y] == (if p <= y < x {
                Some(id)
            } else {
                orig[y]
            }),
        decreases p + size - x,
    {
        d.set(x, Some(id));
        x += 1;
    }
    let mut y: usize = start;
    while y < end
        invariant
            d@.len() == orig.len(),
            p + size <= start,
            start <= y <= end,
            end <= orig.len(),
            end == (if start + size <= orig.len() { start + size } else { orig.len() as int }),
            forall|z: int| 0 <= z < orig.len() ==> #[trigger] d@[z] == (if p <= z < p + size {
                Some(id)
            } else if start <= z < y {
                None
            } else {
                orig[z]
            }),
        decreases end - y,
    {
        d.set(y, None);
        y += 1;
    }
    assert(d@ =~= move_file(orig, id, size as int));
}

/// The checksum of the disk in `input` after moving whole files, each once, highest
/// number first, into the leftmost free run before it that fits; `None` where it
/// exceeds 64 bits.
pub fn part_two(input: &str) -> (r: Option<u64>)
    ensures
        match r {
            Some(c) => c as nat == full_checksum(
                move_files(
                    disk_of(input.spec_bytes()),
                    disk_map(input.spec_bytes()),
                    file_count(disk_map(input.spec_bytes())),
                ),
            ),
            None => full_checksum(
                move_files(
                    disk_of(input.spec_bytes()),
                    disk_map(input.spec_bytes()),
                    file_count(disk_map(input.spec_bytes())),
                ),
            ) > u64::MAX,
        },
{
    let map = read_map(input.as_bytes());
    let mut d = build_disk(&map);
    let ghost orig = d@;
    let ml = map.len();
    let files = ml / 2 + ml % 2;
    assert(files == file_count(map@));
    let mut k: usize = files;
    while k > 0
        invariant
            k <= files,
            ml == map@.len(),
            files == ml / 2 + ml % 2,
            files == file_count(map@),
            map@ == disk_map(input.spec_bytes()),
            orig == disk_of(input.spec_bytes()),
            move_files(orig, map@, files as int) == move_files(d@, map@, k as int),
            forall|i: int| 0 <= i < map@.len() ==> #[trigger] map@[i] <= 9,
        decreases k,
    {
        assert(2 * (k - 1) < ml);
        let size = map[2 * (k - 1)];
        move_one(&mut d, (k - 1) as u64, size as usize);
        k -= 1;
    }
    checksum_of(&d, d.len())
}

} // verus!
