//! Splitting work over worker threads, so that the result does not depend on
//! their number.
use crate::float::F32;
use crate::index::lemma_split;
use crate::metadata::{size_exec, size_value};
use crate::ops::append_row;
use crate::text::chars_of;
use vstd::prelude::*;

verus! {

/// The number of multiplications from which on work is split.
pub const PARALLEL_THRESHOLD: usize = 65536;

/// The number of worker threads: what the setting says, if it is a number and
/// not zero; else what the machine reports; else one.
pub open spec fn threads_of(setting: Option<Seq<char>>, available: Option<usize>) -> usize {
    let wanted = match setting {
        Some(s) => size_value(s),
        None => None,
    };
    if wanted is Some && wanted->0 >= 1 {
        wanted->0
    } else {
        match available {
            Some(n) => n,
            None => 1,
        }
    }
}

/// The number of worker threads.
pub fn num_threads(setting: Option<&str>, available: Option<usize>) -> (n: usize)
    ensures
        n == threads_of(
            match setting {
                Some(s) => Some(s@),
                None => None,
            },
            available,
        ),
        available != Some(0usize) ==> n >= 1,
{
    let wanted: Option<usize> = match setting {
        Some(s) => size_exec(chars_of(s).as_slice()),
        None => None,
    };
    match wanted {
        Some(n) => {
            if n >= 1 {
                return n;
            }
        },
        None => {},
    }
    match available {
        Some(n) => n,
        None => 1,
    }
}

/// Whether rows with so much work in all are worth splitting.
pub fn should_parallelize(rows: usize, cost: usize, threads: usize) -> (b: bool)
    ensures
        b == (rows >= 2 && cost >= PARALLEL_THRESHOLD && threads > 1),
{
    rows >= 2 && cost >= PARALLEL_THRESHOLD && threads > 1
}

/// Whether elements with so much work each are worth splitting.
pub fn should_parallelize_1d(total: usize, per_element: usize, threads: usize) -> (b: bool)
    ensures
        b == (total >= 2 && total * per_element >= PARALLEL_THRESHOLD && threads > 1),
{
    let enough: bool = match total.checked_mul(per_element) {
        Some(n) => n >= PARALLEL_THRESHOLD,
        None => true,
    };
    total >= 2 && enough && threads > 1
}

// ---------------------------------------------------------------------------
// Blocks
// ---------------------------------------------------------------------------

/// `a` over `b`, rounded up.
pub open spec fn ceil_div(a: int, b: int) -> int {
    (a + b - 1) / b
}

/// The workers that share `m` rows.
pub open spec fn row_workers(threads: int, m: int) -> int {
    let t = if threads < 1 {
        1
    } else {
        threads
    };
    let most = if m < 1 {
        1
    } else {
        m
    };
    if t < most {
        t
    } else {
        most
    }
}

/// The workers that share `total` elements, each with so many at least.
pub open spec fn element_workers(threads: int, total: int, min_chunk: int) -> int {
    row_workers(
        threads,
        ceil_div(
            total,
            if min_chunk < 1 {
                1
            } else {
                min_chunk
            },
        ),
    )
}

/// The blocks are next to each other, from row zero to row `m`.
pub open spec fn tiles(blocks: Seq<(usize, usize)>, m: int) -> bool {
    &&& blocks.len() > 0
    &&& blocks[0].0 == 0
    &&& blocks.last().1 == m
    &&& forall|k: int| 0 <= k < blocks.len() ==> (#[trigger] blocks[k]).0 <= blocks[k].1 <= m
    &&& forall|k: int|
        0 < k < blocks.len() ==> (#[trigger] blocks[k]).0 == blocks[k - 1].1
}

/// The blocks of `m` rows for so many workers: equal ones, but for the last.
pub open spec fn cuts(m: int, workers: int) -> Seq<(int, int)> {
    let per = ceil_div(m, workers);
    Seq::new(
        (if m == 0 {
            1
        } else {
            ceil_div(m, per)
        }) as nat,
        |k: int|
            (
                k * per,
                if (k + 1) * per < m {
                    (k + 1) * per
                } else {
                    m
                },
            ),
    )
}

/// Blocks as numbers.
pub open spec fn block_ints(v: Seq<(usize, usize)>) -> Seq<(int, int)> {
    v.map_values(|b: (usize, usize)| (b.0 as int, b.1 as int))
}

proof fn lemma_ceil(a: int, b: int)
    requires
        b > 0,
        a >= 0,
    ensures
        ceil_div(a, b) >= 0,
        (ceil_div(a, b) - 1) * b < a,
        a <= ceil_div(a, b) * b,
        a > 0 ==> ceil_div(a, b) >= 1,
{
    let q = (a + b - 1) / b;
    assert(q * b <= a + b - 1 < q * b + b) by (nonlinear_arith)
        requires
            b > 0,
            q == (a + b - 1) / b,
    ;
    assert((q - 1) * b == q * b - b) by (nonlinear_arith);
    assert(q >= 0) by (nonlinear_arith)
        requires
            b > 0,
            a >= 0,
            q == (a + b - 1) / b,
    ;
    if a > 0 && q < 1 {
        assert(q * b <= 0) by (nonlinear_arith)
            requires
                q <= 0,
                b > 0,
        ;
    }
}

/// `a` over `b`, rounded up.
fn ceil_exec(a: usize, b: usize) -> (q: usize)
    requires
        b > 0,
    ensures
        q == ceil_div(a as int, b as int),
{
    let q: usize = a / b;
    let r: usize = a % b;
    proof {
        let x = a as int;
        let y = b as int;
        assert(q * y + r == x) by (nonlinear_arith)
            requires
                y > 0,
                q == x / y,
                r == x % y,
        ;
        lemma_ceil(x, y);
        let c = ceil_div(x, y);
        if r > 0 {
            assert(c == q + 1) by (nonlinear_arith)
                requires
                    (c - 1) * y < x,
                    x <= c * y,
                    q * y + r == x,
                    0 < r < y,
            ;
            assert(q < x) by (nonlinear_arith)
                requires
                    q * y + r == x,
                    r > 0,
                    y > 0,
                    q >= 0,
            ;
        } else {
            assert(c == q) by (nonlinear_arith)
                requires
                    (c - 1) * y < x,
                    x <= c * y,
                    q * y + r == x,
                    r == 0,
                    y > 0,
            ;
        }
    }
    if r > 0 {
        q + 1
    } else {
        q
    }
}

/// The blocks of `m` rows for so many workers.
fn blocks_for(m: usize, workers: usize) -> (v: Vec<(usize, usize)>)
    requires
        1 <= workers,
        m > 0 ==> workers <= m,
    ensures
        block_ints(v@) == cuts(m as int, workers as int),
        tiles(v@, m as int),
        v@.len() <= workers,
{
    let mut v: Vec<(usize, usize)> = Vec::new();
    let per: usize = ceil_exec(m, workers);
    proof {
        lemma_ceil(m as int, workers as int);
    }
    if m == 0 {
        v.push((0, 0));
        proof {
            assert(0 * per == 0) by (nonlinear_arith);
            assert(block_ints(v@) =~= cuts(0, workers as int));
        }
        return v;
    }
    let ghost all = cuts(m as int, workers as int);
    proof {
        lemma_ceil(m as int, per as int);
        let c = ceil_div(m as int, per as int);
        assert(c <= workers) by (nonlinear_arith)
            requires
                (c - 1) * per < m,
                m <= per * workers,
                per > 0,
        ;
        assert(per * workers == workers * per) by (nonlinear_arith);
        assert(0 * per == 0) by (nonlinear_arith);
    }
    let mut r0: usize = 0;
    while r0 < m
        invariant
            0 < per,
            m > 0,
            r0 <= m,
            all == cuts(m as int, workers as int),
            per == ceil_div(m as int, workers as int),
            all.len() == ceil_div(m as int, per as int),
            (all.len() - 1) * per < m,
            m <= all.len() * per,
            v@.len() <= all.len(),
            r0 < m ==> r0 == v@.len() * per,
            r0 < m ==> v@.len() < all.len(),
            r0 == m ==> v@.len() == all.len(),
            forall|k: int|
                0 <= k < v@.len() ==> (#[trigger] v@[k]).0 == all[k].0 && v@[k].1 == all[k].1,
            v@.len() > 0 ==> v@[0].0 == 0 && v@.last().1 == r0,
            v@.len() == 0 ==> r0 == 0,
            forall|k: int| 0 <= k < v@.len() ==> (#[trigger] v@[k]).0 <= v@[k].1 <= m,
            forall|k: int| 0 < k < v@.len() ==> (#[trigger] v@[k]).0 == v@[k - 1].1,
        decreases m - r0,
    {
        let r1: usize = if per < m - r0 {
            r0 + per
        } else {
            m
        };
        let ghost k = v@.len() as int;
        let ghost before = v@;
        proof {
            assert((k + 1) * per == k * per + per) by (nonlinear_arith);
        }
        v.push((r0, r1));
        proof {
            assert forall|j: int| 0 < j < v@.len() implies (#[trigger] v@[j]).0 == v@[j - 1].1 by {
                if j < k {
                    assert(before[j].0 == before[j - 1].1);
                }
            }
            let c = all.len() as int;
            if r1 < m {
                assert(k + 1 < c) by (nonlinear_arith)
                    requires
                        (k + 1) * per < m,
                        m <= c * per,
                        per > 0,
                ;
            } else {
                assert(k + 1 == c) by (nonlinear_arith)
                    requires
                        (c - 1) * per < m,
                        m <= (k + 1) * per,
                        k < c,
                        per > 0,
                ;
            }
        }
        r0 = r1;
    }
    assert(block_ints(v@) =~= all);
    v
}

/// The blocks of rows that the workers take.
pub fn row_blocks(threads: usize, m: usize) -> (v: Vec<(usize, usize)>)
    ensures
        block_ints(v@) == cuts(m as int, row_workers(threads as int, m as int)),
        tiles(v@, m as int),
        v@.len() <= row_workers(threads as int, m as int),
{
    let t: usize = if threads < 1 {
        1
    } else {
        threads
    };
    let most: usize = if m < 1 {
        1
    } else {
        m
    };
    let workers: usize = if t < most {
        t
    } else {
        most
    };
    blocks_for(m, workers)
}

/// The blocks of elements that the workers take.
pub fn element_blocks(threads: usize, total: usize, min_chunk: usize) -> (v: Vec<(usize, usize)>)
    ensures
        block_ints(v@) == cuts(
            total as int,
            element_workers(threads as int, total as int, min_chunk as int),
        ),
        tiles(v@, total as int),
        v@.len() <= element_workers(threads as int, total as int, min_chunk as int),
{
    let chunk: usize = if min_chunk < 1 {
        1
    } else {
        min_chunk
    };
    let pieces: usize = ceil_exec(total, chunk);
    proof {
        lemma_ceil(total as int, chunk as int);
        if total > 0 {
            assert(pieces <= total) by (nonlinear_arith)
                requires
                    (pieces - 1) * chunk < total,
                    chunk >= 1,
                    total > 0,
            ;
        }
    }
    let t: usize = if threads < 1 {
        1
    } else {
        threads
    };
    let most: usize = if pieces < 1 {
        1
    } else {
        pieces
    };
    let workers: usize = if t < most {
        t
    } else {
        most
    };
    blocks_for(total, workers)
}

// ---------------------------------------------------------------------------
// Running
// ---------------------------------------------------------------------------

/// Whether a kernel can be run on any block of `m` rows, and gives `n` elements
/// for each row.
pub open spec fn is_kernel<K: Fn(usize, usize) -> Vec<F32>>(kernel: K, m: usize, n: usize) -> bool {
    &&& forall|r0: usize, r1: usize|
        r0 <= r1 <= m ==> #[trigger] call_requires(kernel, (r0, r1))
    &&& forall|r0: usize, r1: usize, b: Vec<F32>|
        r0 <= r1 <= m && #[trigger] call_ensures(kernel, (r0, r1), b) ==> b@.len() == (r1 - r0) * n
}

/// The rows of block `k` are what a kernel gives for it.
pub open spec fn block_filled<K: Fn(usize, usize) -> Vec<F32>>(
    kernel: K,
    blocks: Seq<(usize, usize)>,
    k: int,
    n: int,
    out: Seq<F32>,
) -> bool {
    exists|b: Vec<F32>|
        #[trigger] call_ensures(kernel, (blocks[k].0, blocks[k].1), b) && out.subrange(
            blocks[k].0 * n,
            blocks[k].1 * n,
        ) == b@
}

/// The output of a kernel, block by block.
pub open spec fn is_run<K: Fn(usize, usize) -> Vec<F32>>(
    kernel: K,
    blocks: Seq<(usize, usize)>,
    m: int,
    n: int,
    out: Seq<F32>,
) -> bool {
    &&& tiles(blocks, m)
    &&& out.len() == m * n
    &&& forall|k: int| 0 <= k < blocks.len() ==> #[trigger] block_filled(kernel, blocks, k, n, out)
}

fn run_blocks<K: Fn(usize, usize) -> Vec<F32>>(
    blocks: &Vec<(usize, usize)>,
    m: usize,
    n: usize,
    kernel: K,
) -> (out: Vec<F32>)
    requires
        tiles(blocks@, m as int),
        is_kernel(kernel, m, n),
    ensures
        is_run(kernel, blocks@, m as int, n as int, out@),
{
    let mut out: Vec<F32> = Vec::new();
    let mut k: usize = 0;
    assert(0 * n == 0) by (nonlinear_arith);
    while k < blocks.len()
        invariant
            k <= blocks@.len(),
            tiles(blocks@, m as int),
            is_kernel(kernel, m, n),
            out@.len() == (if k == 0 {
                0
            } else {
                blocks@[k - 1].1 * n
            }),
            forall|j: int|
                0 <= j < k ==> #[trigger] block_filled(kernel, blocks@, j, n as int, out@),
        decreases blocks@.len() - k,
    {
        let (r0, r1) = blocks[k];
        assert(blocks@[k as int] == (r0, r1));
        let b: Vec<F32> = kernel(r0, r1);
        let ghost before = out@;
        append_row(&mut out, b.as_slice());
        proof {
            assert(call_ensures(kernel, (r0, r1), b));
            assert((r1 - r0) * n == r1 * n - r0 * n) by (nonlinear_arith);
            assert(out@.subrange(r0 * n, r1 * n) =~= b@);
            assert(block_filled(kernel, blocks@, k as int, n as int, out@));
            assert forall|j: int| 0 <= j < k implies #[trigger] block_filled(
                kernel,
                blocks@,
                j,
                n as int,
                out@,
            ) by {
                assert(block_filled(kernel, blocks@, j, n as int, before));
                let c = choose|c: Vec<F32>|
                    #[trigger] call_ensures(kernel, (blocks@[j].0, blocks@[j].1), c)
                        && before.subrange(blocks@[j].0 * n, blocks@[j].1 * n) == c@;
                lemma_blocks_increase(blocks@, m as int, j, k as int);
                let a0 = blocks@[j].0 as int;
                let a1 = blocks@[j].1 as int;
                assert(0 <= a0 * n <= a1 * n <= r0 * n) by (nonlinear_arith)
                    requires
                        0 <= a0 <= a1 <= r0,
                        n >= 0,
                ;
                assert(out@.subrange(a0 * n, a1 * n) =~= before.subrange(a0 * n, a1 * n));
            }
        }
        k = k + 1;
    }
    out
}

proof fn lemma_blocks_increase(blocks: Seq<(usize, usize)>, m: int, j: int, k: int)
    requires
        tiles(blocks, m),
        0 <= j < k < blocks.len(),
    ensures
        blocks[j].1 <= blocks[k].0,
    decreases k - j,
{
    assert(blocks[k].0 == blocks[k - 1].1);
    if j < k - 1 {
        lemma_blocks_increase(blocks, m, j, k - 1);
        assert(blocks[k - 1].0 <= blocks[k - 1].1);
    }
}

/// Fills `m` rows of `n` elements, each worker's block on its own.
pub fn run<K: Fn(usize, usize) -> Vec<F32>>(threads: usize, m: usize, n: usize, kernel: K) -> (out:
    Vec<F32>)
    requires
        is_kernel(kernel, m, n),
    ensures
        exists|blocks: Seq<(usize, usize)>|
            block_ints(blocks) == cuts(m as int, row_workers(threads as int, m as int))
                && #[trigger] is_run(kernel, blocks, m as int, n as int, out@),
{
    let blocks: Vec<(usize, usize)> = row_blocks(threads, m);
    let out: Vec<F32> = run_blocks(&blocks, m, n, kernel);
    assert(is_run(kernel, blocks@, m as int, n as int, out@));
    out
}

/// Fills `total` elements, each worker's block on its own.
pub fn run_1d<K: Fn(usize, usize) -> Vec<F32>>(
    threads: usize,
    total: usize,
    min_chunk: usize,
    kernel: K,
) -> (out: Vec<F32>)
    requires
        is_kernel(kernel, total, 1),
    ensures
        exists|blocks: Seq<(usize, usize)>|
            block_ints(blocks) == cuts(
                total as int,
                element_workers(threads as int, total as int, min_chunk as int),
            ) && #[trigger] is_run(kernel, blocks, total as int, 1, out@),
{
    let blocks: Vec<(usize, usize)> = element_blocks(threads, total, min_chunk);
    let out: Vec<F32> = run_blocks(&blocks, total, 1, kernel);
    assert(is_run(kernel, blocks@, total as int, 1, out@));
    out
}

// ---------------------------------------------------------------------------
// Laws
// ---------------------------------------------------------------------------

/// The block that holds a row.
proof fn lemma_block_of(blocks: Seq<(usize, usize)>, m: int, i: int, n: int) -> (k: int)
    requires
        tiles(blocks, m),
        0 <= i < m,
        0 < n <= blocks.len(),
        i < blocks[n - 1].1,
    ensures
        0 <= k < n,
        blocks[k].0 <= i < blocks[k].1,
    decreases n,
{
    if blocks[n - 1].0 <= i {
        n - 1
    } else {
        assert(blocks[n - 1].0 == blocks[n - 2].1);
        lemma_block_of(blocks, m, i, n - 1)
    }
}

/// Every row belongs to exactly one block.
pub proof fn every_row_is_in_one_block(blocks: Seq<(usize, usize)>, m: int, i: int)
    requires
        tiles(blocks, m),
        0 <= i < m,
    ensures
        exists|k: int| 0 <= k < blocks.len() && (#[trigger] blocks[k]).0 <= i < blocks[k].1,
        forall|j: int, k: int|
            0 <= j < k < blocks.len() && (#[trigger] blocks[j]).0 <= i < blocks[j].1 ==> !((
            #[trigger] blocks[k]).0 <= i < blocks[k].1),
{
    let k = lemma_block_of(blocks, m, i, blocks.len() as int);
    assert(blocks[k].0 <= i < blocks[k].1);
    assert forall|j: int, k: int|
        0 <= j < k < blocks.len() && (#[trigger] blocks[j]).0 <= i < blocks[j].1 implies !((
    #[trigger] blocks[k]).0 <= i < blocks[k].1) by {
        lemma_blocks_increase(blocks, m, j, k);
    }
}

/// If each block of a kernel is a part of one whole, the output is that whole,
/// whatever the blocks: it does not depend on the number of workers.
pub proof fn output_does_not_depend_on_the_blocks<K: Fn(usize, usize) -> Vec<F32>>(
    kernel: K,
    blocks: Seq<(usize, usize)>,
    m: int,
    n: int,
    whole: Seq<F32>,
    out: Seq<F32>,
)
    requires
        m >= 0,
        n >= 0,
        whole.len() == m * n,
        is_run(kernel, blocks, m, n, out),
        forall|r0: usize, r1: usize, b: Vec<F32>|
            r0 <= r1 <= m && #[trigger] call_ensures(kernel, (r0, r1), b) ==> b@ == whole.subrange(
                r0 * n,
                r1 * n,
            ),
    ensures
        out == whole,
{
    assert forall|t: int| 0 <= t < out.len() implies out[t] == whole[t] by {
        lemma_split(t, m, n);
        let i = t / n;
        let k = lemma_block_of(blocks, m, i, blocks.len() as int);
        assert(block_filled(kernel, blocks, k, n, out));
        let r0 = blocks[k].0 as int;
        let r1 = blocks[k].1 as int;
        let b = choose|b: Vec<F32>|
            #[trigger] call_ensures(kernel, (blocks[k].0, blocks[k].1), b) && out.subrange(
                r0 * n,
                r1 * n,
            ) == b@;
        assert(out.subrange(r0 * n, r1 * n) == whole.subrange(r0 * n, r1 * n));
        assert(0 <= r0 * n <= t < r1 * n <= m * n) by (nonlinear_arith)
            requires
                0 <= r0 <= i < r1 <= m,
                t == i * n + t % n,
                0 <= t % n < n,
        ;
        assert(out.subrange(r0 * n, r1 * n)[t - r0 * n] == out[t]);
        assert(whole.subrange(r0 * n, r1 * n)[t - r0 * n] == whole[t]);
    }
    assert(out =~= whole);
}

} // verus!
