//! Numeric kernels on matrices.
use crate::error::{InferError, Result};
use crate::float::{of_int, F32};
use crate::index::{cell, lemma_cell, lemma_cell_distinct, lemma_row, lemma_split};
use crate::math::{is_exp, Math};
use crate::quant::QWeight;
use crate::tensor::{copy_f32, copy_sizes, lemma_product_2, same_sizes, zeros, Tensor};
use crate::text::{dec, push_dec, with_number};
use vstd::prelude::*;
use vstd::slice::slice_subrange;

verus! {

/// Rows of the right operand that one panel holds.
const KC: usize = 256;

/// Columns of the right operand that one panel holds.
const NC: usize = 256;

/// `init + a[a0] * b[b0] + a[a0 + 1] * b[b0 + step] + ...`, `p` products, added
/// from left to right.
pub open spec fn dot(init: F32, a: Seq<F32>, a0: int, b: Seq<F32>, b0: int, step: int, p: nat) -> F32
    decreases p,
{
    if p == 0 {
        init
    } else {
        let q = (p - 1) as nat;
        dot(init, a, a0, b, b0, step, q).add_spec(a[a0 + q].mul_spec(b[b0 + q * step]))
    }
}

/// A sum of products continues where an earlier one stopped.
pub proof fn lemma_dot_append(
    init: F32,
    a: Seq<F32>,
    a0: int,
    b: Seq<F32>,
    b0: int,
    step: int,
    p: nat,
    q: nat,
)
    ensures
        dot(dot(init, a, a0, b, b0, step, p), a, a0 + p, b, b0 + p * step, step, q) == dot(
            init,
            a,
            a0,
            b,
            b0,
            step,
            p + q,
        ),
    decreases q,
{
    if q > 0 {
        let r = (q - 1) as nat;
        lemma_dot_append(init, a, a0, b, b0, step, p, r);
        assert(b0 + p * step + r * step == b0 + (p + r) * step) by (nonlinear_arith);
        assert((p + q - 1) as nat == p + r);
    }
}

/// One row of one panel: adds products `pp..p1` to columns `jj..j1` of row `i`.
fn panel_row(
    a: &[F32],
    b: &[F32],
    k: usize,
    n: usize,
    i: usize,
    o_base: usize,
    pp: usize,
    p1: usize,
    jj: usize,
    j1: usize,
    out: &mut Vec<F32>,
)
    requires
        pp <= p1 <= k,
        jj <= j1 <= n,
        i * k + k <= a@.len(),
        k * n <= b@.len(),
        o_base + n <= old(out)@.len(),
    ensures
        final(out)@.len() == old(out)@.len(),
        forall|j: int|
            jj <= j < j1 ==> #[trigger] final(out)@[o_base + j] == dot(
                old(out)@[o_base + j],
                a@,
                i * k + pp,
                b@,
                cell(pp as int, j, n as int),
                n as int,
                (p1 - pp) as nat,
            ),
        forall|t: int|
            0 <= t < old(out)@.len() && !(o_base + jj <= t < o_base + j1)
                ==> #[trigger] final(out)@[t] == old(out)@[t],
{
    let ghost start = out@;
    let total: usize = out.len();
    let la: usize = a.len();
    let lb: usize = b.len();
    let mut p: usize = pp;
    proof {
        assert(0 <= i * k) by (nonlinear_arith);
    }
    while p < p1
        invariant
            pp <= p <= p1 <= k,
            jj <= j1 <= n,
            0 <= i * k,
            i * k + k <= a@.len() <= usize::MAX,
            k * n <= b@.len() <= usize::MAX,
            o_base + n <= total == out@.len(),
            out@.len() == start.len(),
            forall|j: int|
                jj <= j < j1 ==> #[trigger] out@[o_base + j] == dot(
                    start[o_base + j],
                    a@,
                    i * k + pp,
                    b@,
                    cell(pp as int, j, n as int),
                    n as int,
                    (p - pp) as nat,
                ),
            forall|t: int|
                0 <= t < start.len() && !(o_base + jj <= t < o_base + j1) ==> #[trigger] out@[t]
                    == start[t],
        decreases p1 - p,
    {
        proof {
            lemma_row(p as int, k as int, n as int);
        }
        let a_ip: F32 = a[i * k + p];
        let b_row: usize = p * n;
        let ghost before = out@;
        let mut j: usize = jj;
        while j < j1
            invariant
                pp <= p < p1 <= k,
                jj <= j <= j1 <= n,
                0 <= i * k,
                i * k + k <= a@.len() <= usize::MAX,
                b_row == p * n,
                b_row + n <= b@.len() <= usize::MAX,
                a_ip == a@[i * k + p],
                o_base + n <= total == out@.len(),
                out@.len() == start.len(),
                before.len() == start.len(),
                forall|c: int|
                    jj <= c < j ==> #[trigger] out@[o_base + c] == before[o_base + c].add_spec(
                        a_ip.mul_spec(b@[b_row + c]),
                    ),
                forall|c: int| j <= c < j1 ==> #[trigger] out@[o_base + c] == before[o_base + c],
                forall|t: int|
                    0 <= t < start.len() && !(o_base + jj <= t < o_base + j1) ==> #[trigger] out@[t]
                        == before[t],
            decreases j1 - j,
        {
            let v: F32 = out[o_base + j].add(a_ip.mul(b[b_row + j]));
            out.set(o_base + j, v);
            j = j + 1;
        }
        proof {
            assert forall|c: int| jj <= c < j1 implies #[trigger] out@[o_base + c] == dot(
                start[o_base + c],
                a@,
                i * k + pp,
                b@,
                cell(pp as int, c, n as int),
                n as int,
                (p + 1 - pp) as nat,
            ) by {
                let q = (p - pp) as nat;
                assert((p + 1 - pp - 1) as nat == q);
                assert(b_row + c == cell(pp as int, c, n as int) + q * n as int) by (nonlinear_arith)
                    requires
                        b_row == p * n,
                        q == p - pp,
                        cell(pp as int, c, n as int) == pp * n + c,
                ;
                assert(before[o_base + c] == dot(
                    start[o_base + c],
                    a@,
                    i * k + pp,
                    b@,
                    cell(pp as int, c, n as int),
                    n as int,
                    q,
                ));
            }
        }
        p = p + 1;
    }
}

/// What row `i`, column `j` of the product is after `p` of its products.
spec fn partial(init: Seq<F32>, a: Seq<F32>, b: Seq<F32>, k: int, n: int, r0: int, i: int, j: int, p: nat) -> F32 {
    dot(init[cell(i - r0, j, n)], a, i * k, b, j, n, p)
}

/// Adds rows `r0..r1` of the product to `out`, which holds those rows alone.
/// The panels only order the work: each element adds its products in order.
pub fn matmul_block(
    a: &[F32],
    b: &[F32],
    k: usize,
    n: usize,
    r0: usize,
    r1: usize,
    out: &mut Vec<F32>,
)
    requires
        r0 <= r1,
        r1 * k <= a@.len(),
        k * n <= b@.len(),
        old(out)@.len() == (r1 - r0) * n,
    ensures
        final(out)@.len() == old(out)@.len(),
        forall|i: int, j: int|
            r0 <= i < r1 && 0 <= j < n ==> #[trigger] final(out)@[cell(i - r0, j, n as int)] == dot(
                old(out)@[cell(i - r0, j, n as int)],
                a@,
                i * k,
                b@,
                j,
                n as int,
                k as nat,
            ),
{
    let ghost init = out@;
    let total: usize = out.len();
    let la: usize = a.len();
    let lb: usize = b.len();
    let mut jj: usize = 0;
    while jj < n
        invariant
            jj <= n,
            total == init.len(),
            r0 <= r1,
            r1 * k <= a@.len() <= usize::MAX,
            k * n <= b@.len() <= usize::MAX,
            out@.len() == init.len(),
            init.len() == (r1 - r0) * n,
            forall|i: int, j: int|
                r0 <= i < r1 && 0 <= j < jj ==> #[trigger] out@[cell(i - r0, j, n as int)]
                    == partial(init, a@, b@, k as int, n as int, r0 as int, i, j, k as nat),
            forall|i: int, j: int|
                r0 <= i < r1 && jj <= j < n ==> #[trigger] out@[cell(i - r0, j, n as int)]
                    == init[cell(i - r0, j, n as int)],
        decreases n - jj,
    {
        let j1: usize = if n - jj > NC {
            jj + NC
        } else {
            n
        };
        let mut pp: usize = 0;
        while pp < k
            invariant
                jj < j1 <= n,
                total == init.len(),
                pp <= k,
                r0 <= r1,
                r1 * k <= a@.len() <= usize::MAX,
                k * n <= b@.len() <= usize::MAX,
                out@.len() == init.len(),
                init.len() == (r1 - r0) * n,
                forall|i: int, j: int|
                    r0 <= i < r1 && 0 <= j < jj ==> #[trigger] out@[cell(i - r0, j, n as int)]
                        == partial(init, a@, b@, k as int, n as int, r0 as int, i, j, k as nat),
                forall|i: int, j: int|
                    r0 <= i < r1 && jj <= j < j1 ==> #[trigger] out@[cell(i - r0, j, n as int)]
                        == partial(init, a@, b@, k as int, n as int, r0 as int, i, j, pp as nat),
                forall|i: int, j: int|
                    r0 <= i < r1 && j1 <= j < n ==> #[trigger] out@[cell(i - r0, j, n as int)]
                        == init[cell(i - r0, j, n as int)],
            decreases k - pp,
        {
            let p1: usize = if k - pp > KC {
                pp + KC
            } else {
                k
            };
            let mut i: usize = r0;
            while i < r1
                invariant
                    jj < j1 <= n,
                    total == init.len(),
                    pp < p1 <= k,
                    r0 <= i <= r1,
                    r1 * k <= a@.len() <= usize::MAX,
                    k * n <= b@.len() <= usize::MAX,
                    out@.len() == init.len(),
                    init.len() == (r1 - r0) * n,
                    forall|i: int, j: int|
                        r0 <= i < r1 && 0 <= j < jj ==> #[trigger] out@[cell(i - r0, j, n as int)]
                            == partial(init, a@, b@, k as int, n as int, r0 as int, i, j, k as nat),
                    forall|x: int, j: int|
                        r0 <= x < i && jj <= j < j1 ==> #[trigger] out@[cell(x - r0, j, n as int)]
                            == partial(init, a@, b@, k as int, n as int, r0 as int, x, j, p1 as nat),
                    forall|x: int, j: int|
                        i <= x < r1 && jj <= j < j1 ==> #[trigger] out@[cell(x - r0, j, n as int)]
                            == partial(init, a@, b@, k as int, n as int, r0 as int, x, j, pp as nat),
                    forall|i: int, j: int|
                        r0 <= i < r1 && j1 <= j < n ==> #[trigger] out@[cell(i - r0, j, n as int)]
                            == init[cell(i - r0, j, n as int)],
                decreases r1 - i,
            {
                proof {
                    lemma_row(i as int, r1 as int, k as int);
                    lemma_row(i - r0, r1 - r0, n as int);
                }
                let o_base: usize = (i - r0) * n;
                let ghost before = out@;
                panel_row(a, b, k, n, i, o_base, pp, p1, jj, j1, out);
                proof {
                    assert forall|x: int, j: int| r0 <= x < r1 && 0 <= j < n implies {
                        &&& x == i && jj <= j < j1 ==> #[trigger] out@[cell(x - r0, j, n as int)]
                            == partial(init, a@, b@, k as int, n as int, r0 as int, x, j, p1 as nat)
                        &&& !(x == i && jj <= j < j1) ==> out@[cell(x - r0, j, n as int)]
                            == before[cell(x - r0, j, n as int)]
                    } by {
                        lemma_cell(x - r0, j, r1 - r0, n as int);
                        if x == i && jj <= j < j1 {
                            assert(out@[o_base + j] == dot(
                                before[o_base + j],
                                a@,
                                i * k + pp,
                                b@,
                                cell(pp as int, j, n as int),
                                n as int,
                                (p1 - pp) as nat,
                            ));
                            lemma_dot_append(
                                init[cell(x - r0, j, n as int)],
                                a@,
                                i * k,
                                b@,
                                j,
                                n as int,
                                pp as nat,
                                (p1 - pp) as nat,
                            );
                            assert(cell(pp as int, j, n as int) == j + pp * n as int);
                            assert(before[o_base + j] == partial(
                                init,
                                a@,
                                b@,
                                k as int,
                                n as int,
                                r0 as int,
                                x,
                                j,
                                pp as nat,
                            )) by {
                                assert(before[cell(x - r0, j, n as int)] == before[o_base + j]);
                            }
                        } else {
                            let t = cell(x - r0, j, n as int);
                            if o_base + jj <= t < o_base + j1 {
                                lemma_cell_distinct(x - r0, j, i - r0, t - o_base, n as int);
                            }
                        }
                    }
                }
                i = i + 1;
            }
            pp = p1;
        }
        jj = j1;
    }
}


// ---------------------------------------------------------------------------
// What the kernels compute
// ---------------------------------------------------------------------------

/// The refusal of a tensor that has not two axes.
pub open spec fn not_matrix(t: Tensor, e: InferError) -> bool {
    !t.is_matrix() && e is NotAMatrix && e->NotAMatrix_0@ == t.shape@
}

/// Row `i` of row-major storage with `c` columns.
pub open spec fn row_of(data: Seq<F32>, i: int, c: int) -> Seq<F32> {
    data.subrange(i * c, i * c + c)
}

/// Row `i`, column `j` of the product of two matrices.
pub open spec fn product_at(a: Tensor, b: Tensor, i: int, j: int) -> F32 {
    dot(
        F32 { bits: 0 },
        a.data@,
        i * a.shape@[1],
        b.data@,
        j,
        b.shape@[1] as int,
        a.shape@[1] as nat,
    )
}

/// `t` is the product of `a` and `b`.
pub open spec fn is_matmul(a: Tensor, b: Tensor, t: Tensor) -> bool {
    &&& a.is_matrix() && b.is_matrix() && a.shape@[1] == b.shape@[0]
    &&& t.is_sized(a.shape@[0] as int, b.shape@[1] as int)
    &&& forall|i: int, j: int|
        0 <= i < a.shape@[0] && 0 <= j < b.shape@[1] ==> #[trigger] t.at_spec(i, j) == product_at(
            a,
            b,
            i,
            j,
        )
}

/// `t` is `m` with `bias` added to every row.
pub open spec fn is_add_bias(m: Tensor, bias: Seq<F32>, t: Tensor) -> bool {
    &&& m.is_matrix() && bias.len() == m.shape@[1]
    &&& t.is_sized(m.shape@[0] as int, m.shape@[1] as int)
    &&& forall|i: int, j: int|
        0 <= i < m.shape@[0] && 0 <= j < m.shape@[1] ==> #[trigger] t.at_spec(i, j) == m.at_spec(
            i,
            j,
        ).add_spec(bias[j])
}

/// `t` is `x * w` with `bias` added to every row.
pub open spec fn is_linear(x: Tensor, w: Tensor, bias: Seq<F32>, t: Tensor) -> bool {
    &&& x.is_matrix() && w.is_matrix() && x.shape@[1] == w.shape@[0]
    &&& bias.len() == w.shape@[1]
    &&& t.is_sized(x.shape@[0] as int, w.shape@[1] as int)
    &&& forall|i: int, j: int|
        0 <= i < x.shape@[0] && 0 <= j < w.shape@[1] ==> #[trigger] t.at_spec(i, j) == product_at(
            x,
            w,
            i,
            j,
        ).add_spec(bias[j])
}

/// The affine layer in one pass gives the same bits as the product followed by
/// the addition of the bias.
pub proof fn linear_is_matmul_and_bias(
    x: Tensor,
    w: Tensor,
    bias: Seq<F32>,
    p: Tensor,
    y: Tensor,
    z: Tensor,
)
    requires
        is_matmul(x, w, p),
        is_add_bias(p, bias, y),
        is_linear(x, w, bias, z),
    ensures
        y.shape@ == z.shape@,
        y.data@ == z.data@,
{
    let r = x.shape@[0] as int;
    let c = w.shape@[1] as int;
    assert(y.shape@ =~= z.shape@);
    assert forall|t: int| 0 <= t < y.data@.len() implies y.data@[t] == z.data@[t] by {
        lemma_split(t, r, c);
        assert(y.at_spec(t / c, t % c) == z.at_spec(t / c, t % c));
    }
    assert(y.data@ =~= z.data@);
}

/// Two tensors that are the product of the same matrices hold the same bits.
pub proof fn matmul_is_unique(a: Tensor, b: Tensor, s: Tensor, t: Tensor)
    requires
        is_matmul(a, b, s),
        is_matmul(a, b, t),
    ensures
        s.data@ == t.data@,
{
    let r = a.shape@[0] as int;
    let c = b.shape@[1] as int;
    assert forall|k: int| 0 <= k < s.data@.len() implies s.data@[k] == t.data@[k] by {
        lemma_split(k, r, c);
        assert(s.at_spec(k / c, k % c) == t.at_spec(k / c, k % c));
    }
    assert(s.data@ =~= t.data@);
}

/// The sum, from left to right, starting from zero.
pub open spec fn sum_of(s: Seq<F32>) -> F32
    decreases s.len(),
{
    if s.len() == 0 {
        F32 { bits: 0 }
    } else {
        sum_of(s.drop_last()).add_spec(s.last())
    }
}

/// The largest element; negative infinity if there is none.
pub open spec fn max_of(s: Seq<F32>) -> F32
    decreases s.len(),
{
    if s.len() == 0 {
        F32 { bits: 0xff80_0000 }
    } else {
        max_of(s.drop_last()).max_spec(s.last())
    }
}

/// `e` holds the exponentials of `x` below its maximum, and `y` their shares.
pub open spec fn softmax_via<M: Math>(m: &M, x: Seq<F32>, e: Seq<F32>, y: Seq<F32>) -> bool {
    &&& e.len() == x.len()
    &&& y.len() == x.len()
    &&& forall|j: int| 0 <= j < x.len() ==> is_exp(m, x[j].sub_spec(max_of(x)), #[trigger] e[j])
    &&& forall|j: int| 0 <= j < x.len() ==> #[trigger] y[j] == e[j].div_spec(sum_of(e))
}

/// `y` is the softmax of `x`.
pub open spec fn is_softmax<M: Math>(m: &M, x: Seq<F32>, y: Seq<F32>) -> bool {
    exists|e: Seq<F32>| softmax_via(m, x, e, y)
}

// ---------------------------------------------------------------------------
// Kernels
// ---------------------------------------------------------------------------

/// Appends a row.
pub(crate) fn append_row(out: &mut Vec<F32>, row: &[F32])
    ensures
        final(out)@ == old(out)@ + row@,
{
    let ghost before = out@;
    let mut i: usize = 0;
    while i < row.len()
        invariant
            i <= row.len(),
            out@ == before + row@.subrange(0, i as int),
        decreases row.len() - i,
    {
        out.push(row[i]);
        proof {
            assert(before + row@.subrange(0, i + 1) =~= (before + row@.subrange(0, i as int)).push(
                row@[i as int],
            ));
        }
        i = i + 1;
    }
    assert(row@.subrange(0, row@.len() as int) =~= row@);
}

/// The message for operands whose sizes do not fit.
pub(crate) fn mismatch(before: &str, x: usize, between: &str, y: usize) -> (e: InferError)
    ensures
        e is DimMismatch,
        e->DimMismatch_0@ == before@ + dec(x as nat) + between@ + dec(y as nat),
{
    let mut s: String = with_number(before, x, between);
    push_dec(&mut s, y as u64);
    InferError::DimMismatch(s)
}

/// The sum, from left to right.
pub fn sum(s: &[F32]) -> (r: F32)
    ensures
        r == sum_of(s@),
{
    let mut acc: F32 = F32::zero();
    let mut i: usize = 0;
    while i < s.len()
        invariant
            i <= s.len(),
            acc == sum_of(s@.subrange(0, i as int)),
        decreases s.len() - i,
    {
        proof {
            assert(s@.subrange(0, i + 1).drop_last() =~= s@.subrange(0, i as int));
        }
        acc = acc.add(s[i]);
        i = i + 1;
    }
    assert(s@.subrange(0, s@.len() as int) =~= s@);
    acc
}

/// The largest element.
pub fn max(s: &[F32]) -> (r: F32)
    ensures
        r == max_of(s@),
{
    let mut acc: F32 = F32::neg_infinity();
    let mut i: usize = 0;
    while i < s.len()
        invariant
            i <= s.len(),
            acc == max_of(s@.subrange(0, i as int)),
        decreases s.len() - i,
    {
        proof {
            assert(s@.subrange(0, i + 1).drop_last() =~= s@.subrange(0, i as int));
        }
        acc = acc.max(s[i]);
        i = i + 1;
    }
    assert(s@.subrange(0, s@.len() as int) =~= s@);
    acc
}

/// Softmax of one row.
pub fn softmax<M: Math>(m: &M, x: &[F32]) -> (y: Vec<F32>)
    ensures
        is_softmax(m, x@, y@),
{
    let top: F32 = self::max(x);
    let mut e: Vec<F32> = Vec::with_capacity(x.len());
    let mut i: usize = 0;
    while i < x.len()
        invariant
            i <= x.len(),
            top == max_of(x@),
            e@.len() == i,
            forall|j: int| 0 <= j < i ==> is_exp(m, x@[j].sub_spec(top), #[trigger] e@[j]),
        decreases x.len() - i,
    {
        let d: F32 = x[i].sub(top);
        let v: F32 = m.exp(d);
        assert(is_exp(m, x@[i as int].sub_spec(top), v));
        e.push(v);
        i = i + 1;
    }
    let total: F32 = self::sum(e.as_slice());
    let mut y: Vec<F32> = Vec::with_capacity(x.len());
    let mut j: usize = 0;
    while j < e.len()
        invariant
            j <= e.len(),
            total == sum_of(e@),
            y@.len() == j,
            forall|c: int| 0 <= c < j ==> #[trigger] y@[c] == e@[c].div_spec(total),
        decreases e.len() - j,
    {
        y.push(e[j].div(total));
        j = j + 1;
    }
    assert(softmax_via(m, x@, e@, y@));
    y
}

/// Matrix product.
pub fn matmul(a: &Tensor, b: &Tensor) -> (r: Result<Tensor>)
    requires
        a.wf(),
        b.wf(),
    ensures
        match r {
            Ok(t) => is_matmul(*a, *b, t) && t.wf(),
            Err(e) => {
                ||| not_matrix(*a, e)
                ||| a.is_matrix() && not_matrix(*b, e)
                ||| a.is_matrix() && b.is_matrix() && (a.shape@[1] != b.shape@[0] || a.shape@[0]
                    * b.shape@[1] > usize::MAX) && e is DimMismatch
            },
        },
{
    let (m, ka) = match a.matrix_dims() {
        Ok(d) => d,
        Err(e) => return Err(e),
    };
    let (kb, n) = match b.matrix_dims() {
        Ok(d) => d,
        Err(e) => return Err(e),
    };
    if ka != kb {
        return Err(mismatch("matmul: inner dims disagree: ", ka, " against ", kb));
    }
    let total: usize = match m.checked_mul(n) {
        Some(t) => t,
        None => return Err(mismatch("matmul: output too large: ", m, " by ", n)),
    };
    let mut out: Vec<F32> = zeros(total);
    matmul_block(a.data.as_slice(), b.data.as_slice(), ka, n, 0, m, &mut out);
    proof {
        assert forall|i: int, j: int| 0 <= i < m && 0 <= j < n implies out@[cell(i, j, n as int)]
            == product_at(*a, *b, i, j) by {
            lemma_cell(i, j, m as int, n as int);
            assert(out@[cell(i - 0, j, n as int)] == product_at(*a, *b, i, j));
        }
    }
    Tensor::matrix(m, n, out)
}

/// Rows `r0..r1` of the matrix product, which do not depend on the other rows.
pub fn matmul_rows(a: &Tensor, b: &Tensor, r0: usize, r1: usize) -> (out: Vec<F32>)
    requires
        a.wf(),
        b.wf(),
        a.is_matrix(),
        b.is_matrix(),
        a.shape@[1] == b.shape@[0],
        r0 <= r1 <= a.shape@[0],
        a.shape@[0] * b.shape@[1] <= usize::MAX,
    ensures
        out@.len() == (r1 - r0) * b.shape@[1],
        forall|i: int, j: int|
            r0 <= i < r1 && 0 <= j < b.shape@[1] ==> #[trigger] out@[cell(
                i - r0,
                j,
                b.shape@[1] as int,
            )] == product_at(*a, *b, i, j),
{
    proof {
        lemma_product_2(a.shape@);
        lemma_product_2(b.shape@);
    }
    let k: usize = a.shape[1];
    let n: usize = b.shape[1];
    proof {
        assert((r1 - r0) * n <= a.shape@[0] * n && 0 <= (r1 - r0) * n) by (nonlinear_arith)
            requires
                0 <= r1 - r0 <= a.shape@[0],
                n >= 0,
        ;
        assert(r1 * k <= a.shape@[0] * k) by (nonlinear_arith)
            requires
                r1 <= a.shape@[0],
                k >= 0,
        ;
    }
    let mut out: Vec<F32> = zeros((r1 - r0) * n);
    matmul_block(a.data.as_slice(), b.data.as_slice(), k, n, r0, r1, &mut out);
    proof {
        assert forall|i: int, j: int| r0 <= i < r1 && 0 <= j < n implies #[trigger] out@[cell(
            i - r0,
            j,
            n as int,
        )] == product_at(*a, *b, i, j) by {
            lemma_cell(i - r0, j, r1 - r0, n as int);
        }
    }
    out
}

/// Adds `bias` to every row of storage with `rows` rows.
fn add_bias_rows(out: &mut Vec<F32>, rows: usize, bias: &[F32])
    requires
        old(out)@.len() == rows * bias@.len(),
    ensures
        final(out)@.len() == old(out)@.len(),
        forall|i: int, j: int|
            0 <= i < rows && 0 <= j < bias@.len() ==> #[trigger] final(out)@[cell(
                i,
                j,
                bias@.len() as int,
            )] == old(out)@[cell(i, j, bias@.len() as int)].add_spec(bias@[j]),
{
    let n: usize = bias.len();
    let total: usize = out.len();
    let ghost start = out@;
    let mut r: usize = 0;
    while r < rows
        invariant
            r <= rows,
            n == bias@.len(),
            total == start.len(),
            start.len() == rows * n,
            out@.len() == start.len(),
            forall|i: int, j: int|
                0 <= i < r && 0 <= j < n ==> #[trigger] out@[cell(i, j, n as int)] == start[cell(
                    i,
                    j,
                    n as int,
                )].add_spec(bias@[j]),
            forall|t: int| r * n <= t < start.len() ==> #[trigger] out@[t] == start[t],
        decreases rows - r,
    {
        proof {
            lemma_row(r as int, rows as int, n as int);
        }
        let base: usize = r * n;
        let ghost before = out@;
        let mut c: usize = 0;
        while c < n
            invariant
                r < rows,
                c <= n,
                n == bias@.len(),
                base == r * n,
                base + n <= total == start.len(),
                out@.len() == start.len(),
                before.len() == start.len(),
                forall|t: int| 0 <= t < base ==> #[trigger] out@[t] == before[t],
                forall|j: int|
                    0 <= j < c ==> #[trigger] out@[base + j] == start[base + j].add_spec(bias@[j]),
                forall|t: int| base + c <= t < start.len() ==> #[trigger] out@[t] == start[t],
            decreases n - c,
        {
            let v: F32 = out[base + c].add(bias[c]);
            out.set(base + c, v);
            c = c + 1;
        }
        proof {
            assert forall|i: int, j: int| 0 <= i < r + 1 && 0 <= j < n implies #[trigger] out@[cell(
                i,
                j,
                n as int,
            )] == start[cell(i, j, n as int)].add_spec(bias@[j]) by {
                if i < r {
                    lemma_cell(i, j, r as int, n as int);
                    assert(before[cell(i, j, n as int)] == start[cell(i, j, n as int)].add_spec(
                        bias@[j],
                    ));
                } else {
                    assert(out@[base + j] == start[base + j].add_spec(bias@[j]));
                }
            }
        }
        r = r + 1;
    }
}

/// Affine layer `x * w + bias`, with the bias added last.
pub fn linear_forward(input: &Tensor, weight: &Tensor, bias: &[F32]) -> (r: Result<Tensor>)
    requires
        input.wf(),
        weight.wf(),
    ensures
        match r {
            Ok(t) => is_linear(*input, *weight, bias@, t) && t.wf(),
            Err(e) => {
                ||| not_matrix(*input, e)
                ||| input.is_matrix() && not_matrix(*weight, e)
                ||| input.is_matrix() && weight.is_matrix() && (input.shape@[1] != weight.shape@[0]
                    || bias@.len() != weight.shape@[1] || input.shape@[0] * weight.shape@[1]
                    > usize::MAX) && e is DimMismatch
            },
        },
{
    let (m, k) = match input.matrix_dims() {
        Ok(d) => d,
        Err(e) => return Err(e),
    };
    let (kb, n) = match weight.matrix_dims() {
        Ok(d) => d,
        Err(e) => return Err(e),
    };
    if k != kb {
        return Err(mismatch("linear_forward: input width ", k, " ≠ weight rows ", kb));
    }
    if bias.len() != n {
        return Err(mismatch("linear_forward: bias length ", bias.len(), " ≠ out_features ", n));
    }
    let total: usize = match m.checked_mul(n) {
        Some(t) => t,
        None => return Err(mismatch("linear_forward: output too large: ", m, " by ", n)),
    };
    let mut out: Vec<F32> = zeros(total);
    matmul_block(input.data.as_slice(), weight.data.as_slice(), k, n, 0, m, &mut out);
    let ghost products = out@;
    add_bias_rows(&mut out, m, bias);
    proof {
        assert forall|i: int, j: int| 0 <= i < m && 0 <= j < n implies out@[cell(i, j, n as int)]
            == product_at(*input, *weight, i, j).add_spec(bias@[j]) by {
            lemma_cell(i, j, m as int, n as int);
            assert(products[cell(i - 0, j, n as int)] == product_at(*input, *weight, i, j));
        }
    }
    Tensor::matrix(m, n, out)
}

/// Adds a bias vector to every row of a matrix.
pub fn add_bias(matrix: &Tensor, bias: &Tensor) -> (r: Result<Tensor>)
    requires
        matrix.wf(),
    ensures
        match r {
            Ok(t) => is_add_bias(*matrix, bias.data@, t) && t.wf(),
            Err(e) => {
                ||| not_matrix(*matrix, e)
                ||| matrix.is_matrix() && bias.data@.len() != matrix.shape@[1] && e is DimMismatch
            },
        },
{
    let (rows, cols) = match matrix.matrix_dims() {
        Ok(d) => d,
        Err(e) => return Err(e),
    };
    if bias.numel() != cols {
        return Err(mismatch("bias length ", bias.numel(), " ≠ matrix cols ", cols));
    }
    let mut out: Vec<F32> = copy_f32(matrix.data.as_slice());
    add_bias_rows(&mut out, rows, bias.data.as_slice());
    proof {
        assert forall|i: int, j: int| 0 <= i < rows && 0 <= j < cols implies out@[cell(
            i,
            j,
            cols as int,
        )] == matrix.at_spec(i, j).add_spec(bias.data@[j]) by {}
    }
    Tensor::matrix(rows, cols, out)
}

/// Element-wise sum of two tensors of one shape.
pub fn add(a: &Tensor, b: &Tensor) -> (r: Result<Tensor>)
    requires
        a.wf(),
        b.wf(),
    ensures
        match r {
            Ok(t) => a.shape@ == b.shape@ && t.shape@ == a.shape@ && t.wf() && forall|i: int|
                0 <= i < a.data@.len() ==> #[trigger] t.data@[i] == a.data@[i].add_spec(b.data@[i]),
            Err(e) => a.shape@ != b.shape@ && e is DimMismatch,
        },
{
    if !same_sizes(a.shape.as_slice(), b.shape.as_slice()) {
        return Err(InferError::DimMismatch("add: shapes differ".to_owned()));
    }
    let mut data: Vec<F32> = Vec::with_capacity(a.data.len());
    let mut i: usize = 0;
    while i < a.data.len()
        invariant
            i <= a.data@.len() == b.data@.len(),
            data@.len() == i,
            forall|j: int| 0 <= j < i ==> #[trigger] data@[j] == a.data@[j].add_spec(b.data@[j]),
        decreases a.data@.len() - i,
    {
        data.push(a.data[i].add(b.data[i]));
        i = i + 1;
    }
    Tensor::new(copy_sizes(a.shape.as_slice()), data)
}

/// Element-wise product of two tensors of one shape.
pub fn mul(a: &Tensor, b: &Tensor) -> (r: Result<Tensor>)
    requires
        a.wf(),
        b.wf(),
    ensures
        match r {
            Ok(t) => a.shape@ == b.shape@ && t.shape@ == a.shape@ && t.wf() && forall|i: int|
                0 <= i < a.data@.len() ==> #[trigger] t.data@[i] == a.data@[i].mul_spec(b.data@[i]),
            Err(e) => a.shape@ != b.shape@ && e is DimMismatch,
        },
{
    if !same_sizes(a.shape.as_slice(), b.shape.as_slice()) {
        return Err(InferError::DimMismatch("mul: shapes differ".to_owned()));
    }
    let mut data: Vec<F32> = Vec::with_capacity(a.data.len());
    let mut i: usize = 0;
    while i < a.data.len()
        invariant
            i <= a.data@.len() == b.data@.len(),
            data@.len() == i,
            forall|j: int| 0 <= j < i ==> #[trigger] data@[j] == a.data@[j].mul_spec(b.data@[j]),
        decreases a.data@.len() - i,
    {
        data.push(a.data[i].mul(b.data[i]));
        i = i + 1;
    }
    Tensor::new(copy_sizes(a.shape.as_slice()), data)
}

/// Every element times a scalar.
pub fn scale(t: &Tensor, s: F32) -> (r: Tensor)
    ensures
        r.shape@ == t.shape@,
        r.data@.len() == t.data@.len(),
        forall|i: int| 0 <= i < t.data@.len() ==> #[trigger] r.data@[i] == t.data@[i].mul_spec(s),
{
    t.map(|x: F32| -> (y: F32) ensures y == x.mul_spec(s), { x.mul(s) })
}

/// The matrix with rows and columns exchanged.
pub fn transpose(m: &Tensor) -> (r: Result<Tensor>)
    requires
        m.wf(),
    ensures
        match r {
            Ok(t) => {
                &&& m.is_matrix() && t.wf()
                &&& t.is_sized(m.shape@[1] as int, m.shape@[0] as int)
                &&& forall|i: int, j: int|
                    0 <= i < m.shape@[1] && 0 <= j < m.shape@[0] ==> #[trigger] t.at_spec(i, j)
                        == m.at_spec(j, i)
            },
            Err(e) => not_matrix(*m, e),
        },
{
    let (r, c) = match m.matrix_dims() {
        Ok(d) => d,
        Err(e) => return Err(e),
    };
    let total: usize = m.data.len();
    let mut out: Vec<F32> = Vec::with_capacity(total);
    let mut j: usize = 0;
    while j < c
        invariant
            j <= c,
            total == m.data@.len(),
            m.data@.len() == r * c,
            out@.len() == j * r,
            forall|x: int, y: int|
                0 <= x < j && 0 <= y < r ==> #[trigger] out@[cell(x, y, r as int)] == m.data@[cell(
                    y,
                    x,
                    c as int,
                )],
        decreases c - j,
    {
        let mut i: usize = 0;
        proof {
            lemma_row(j as int, c as int, r as int);
        }
        while i < r
            invariant
                j < c,
                i <= r,
                total == m.data@.len(),
                m.data@.len() == r * c,
                out@.len() == j * r + i,
                forall|x: int, y: int|
                    0 <= x < j && 0 <= y < r ==> #[trigger] out@[cell(x, y, r as int)]
                        == m.data@[cell(y, x, c as int)],
                forall|y: int|
                    0 <= y < i ==> #[trigger] out@[cell(j as int, y, r as int)] == m.data@[cell(
                        y,
                        j as int,
                        c as int,
                    )],
            decreases r - i,
        {
            proof {
                lemma_cell(i as int, j as int, r as int, c as int);
            }
            let ghost before = out@;
            out.push(m.data[i * c + j]);
            proof {
                assert forall|x: int, y: int| 0 <= x < j && 0 <= y < r implies #[trigger] out@[cell(
                    x,
                    y,
                    r as int,
                )] == before[cell(x, y, r as int)] by {
                    lemma_cell(x, y, j as int, r as int);
                }
                assert(cell(j as int, i as int, r as int) == j * r + i);
            }
            i = i + 1;
        }
        j = j + 1;
    }
    proof {
        assert(c * r == r * c) by (nonlinear_arith);
    }
    Tensor::matrix(c, r, out)
}

/// Transposing twice gives the matrix back.
pub proof fn transpose_twice_is_identity(m: Tensor, t: Tensor, u: Tensor)
    requires
        m.wf(),
        m.is_matrix(),
        t.is_sized(m.shape@[1] as int, m.shape@[0] as int),
        forall|i: int, j: int|
            0 <= i < m.shape@[1] && 0 <= j < m.shape@[0] ==> #[trigger] t.at_spec(i, j)
                == m.at_spec(j, i),
        u.is_sized(t.shape@[1] as int, t.shape@[0] as int),
        forall|i: int, j: int|
            0 <= i < t.shape@[1] && 0 <= j < t.shape@[0] ==> #[trigger] u.at_spec(i, j)
                == t.at_spec(j, i),
    ensures
        u.shape@ == m.shape@,
        u.data@ == m.data@,
{
    let r = m.shape@[0] as int;
    let c = m.shape@[1] as int;
    lemma_product_2(m.shape@);
    assert(u.shape@ =~= m.shape@);
    assert forall|k: int| 0 <= k < u.data@.len() implies u.data@[k] == m.data@[k] by {
        lemma_split(k, r, c);
        assert(u.at_spec(k / c, k % c) == t.at_spec(k % c, k / c));
        assert(t.at_spec(k % c, k / c) == m.at_spec(k / c, k % c));
    }
    assert(u.data@ =~= m.data@);
}

/// The sum of column `j` over the first `n` rows.
pub open spec fn column_sum(data: Seq<F32>, c: int, j: int, n: nat) -> F32
    decreases n,
{
    if n == 0 {
        F32 { bits: 0 }
    } else {
        column_sum(data, c, j, (n - 1) as nat).add_spec(data[cell(n - 1, j, c)])
    }
}

/// The column sums of a matrix.
pub fn sum_axis0(m: &Tensor) -> (r: Result<Tensor>)
    requires
        m.wf(),
    ensures
        match r {
            Ok(t) => {
                &&& m.is_matrix() && t.wf()
                &&& t.shape@ == seq![m.shape@[1]]
                &&& forall|j: int|
                    0 <= j < m.shape@[1] ==> #[trigger] t.data@[j] == column_sum(
                        m.data@,
                        m.shape@[1] as int,
                        j,
                        m.shape@[0] as nat,
                    )
            },
            Err(e) => not_matrix(*m, e),
        },
{
    let (rows, cols) = match m.matrix_dims() {
        Ok(d) => d,
        Err(e) => return Err(e),
    };
    let total: usize = m.data.len();
    let mut out: Vec<F32> = zeros(cols);
    let mut i: usize = 0;
    while i < rows
        invariant
            i <= rows,
            total == m.data@.len(),
            m.data@.len() == rows * cols,
            out@.len() == cols,
            forall|j: int|
                0 <= j < cols ==> #[trigger] out@[j] == column_sum(
                    m.data@,
                    cols as int,
                    j,
                    i as nat,
                ),
        decreases rows - i,
    {
        proof {
            lemma_row(i as int, rows as int, cols as int);
        }
        let base: usize = i * cols;
        let mut j: usize = 0;
        while j < cols
            invariant
                i < rows,
                j <= cols,
                base == i * cols,
                base + cols <= total == m.data@.len(),
                out@.len() == cols,
                forall|c: int|
                    0 <= c < j ==> #[trigger] out@[c] == column_sum(
                        m.data@,
                        cols as int,
                        c,
                        (i + 1) as nat,
                    ),
                forall|c: int|
                    j <= c < cols ==> #[trigger] out@[c] == column_sum(
                        m.data@,
                        cols as int,
                        c,
                        i as nat,
                    ),
            decreases cols - j,
        {
            let v: F32 = out[j].add(m.data[base + j]);
            out.set(j, v);
            proof {
                assert(cell(i + 1 - 1, j as int, cols as int) == base + j);
            }
            j = j + 1;
        }
        i = i + 1;
    }
    let t: Tensor = Tensor::vector(out);
    assert(t.shape@ =~= seq![m.shape@[1]]);
    Ok(t)
}

/// `b` is the position of the last largest element in the total order; zero if
/// there is none.
pub open spec fn is_argmax(row: Seq<F32>, b: int) -> bool {
    if row.len() == 0 {
        b == 0
    } else {
        &&& 0 <= b < row.len()
        &&& forall|c: int|
            0 <= c < row.len() ==> #[trigger] row[c].total_key() <= row[b].total_key()
        &&& forall|c: int| b < c < row.len() ==> #[trigger] row[c].total_key() < row[b].total_key()
    }
}

/// The position of the largest element in each row.
pub fn argmax_rows(matrix: &Tensor) -> (r: Result<Vec<usize>>)
    requires
        matrix.wf(),
    ensures
        match r {
            Ok(v) => {
                &&& matrix.is_matrix()
                &&& v@.len() == matrix.shape@[0]
                &&& forall|i: int|
                    0 <= i < v@.len() ==> is_argmax(
                        row_of(matrix.data@, i, matrix.shape@[1] as int),
                        #[trigger] v@[i] as int,
                    )
            },
            Err(e) => not_matrix(*matrix, e),
        },
{
    let (rows, cols) = match matrix.matrix_dims() {
        Ok(d) => d,
        Err(e) => return Err(e),
    };
    let total: usize = matrix.data.len();
    let mut out: Vec<usize> = Vec::with_capacity(rows);
    let mut r: usize = 0;
    while r < rows
        invariant
            r <= rows,
            total == matrix.data@.len(),
            matrix.data@.len() == rows * cols,
            out@.len() == r,
            forall|i: int|
                0 <= i < r ==> is_argmax(
                    row_of(matrix.data@, i, cols as int),
                    #[trigger] out@[i] as int,
                ),
        decreases rows - r,
    {
        proof {
            lemma_row(r as int, rows as int, cols as int);
        }
        let base: usize = r * cols;
        let ghost row = row_of(matrix.data@, r as int, cols as int);
        let mut best: usize = 0;
        let mut c: usize = 0;
        while c < cols
            invariant
                r < rows,
                c <= cols,
                base == r * cols,
                base + cols <= total == matrix.data@.len(),
                row == matrix.data@.subrange(base as int, base + cols),
                c == 0 ==> best == 0,
                c > 0 ==> best < c,
                forall|x: int| 0 <= x < c ==> #[trigger] row[x].total_key() <= row[best as int].total_key(),
                forall|x: int|
                    best < x < c ==> #[trigger] row[x].total_key() < row[best as int].total_key(),
            decreases cols - c,
        {
            if !matrix.data[base + c].total_lt(matrix.data[base + best]) {
                best = c;
            }
            c = c + 1;
        }
        out.push(best);
        r = r + 1;
    }
    Ok(out)
}

/// Softmax of every row.
pub fn softmax_rows<M: Math>(math: &M, m: &Tensor) -> (r: Result<Tensor>)
    requires
        m.wf(),
    ensures
        match r {
            Ok(t) => {
                &&& m.is_matrix() && t.wf()
                &&& t.is_sized(m.shape@[0] as int, m.shape@[1] as int)
                &&& forall|i: int|
                    0 <= i < m.shape@[0] ==> is_softmax(
                        math,
                        #[trigger] row_of(m.data@, i, m.shape@[1] as int),
                        row_of(t.data@, i, m.shape@[1] as int),
                    )
            },
            Err(e) => not_matrix(*m, e),
        },
{
    let (rows, cols) = match m.matrix_dims() {
        Ok(d) => d,
        Err(e) => return Err(e),
    };
    let total: usize = m.data.len();
    let mut out: Vec<F32> = Vec::with_capacity(total);
    let mut r: usize = 0;
    while r < rows
        invariant
            r <= rows,
            total == m.data@.len(),
            m.data@.len() == rows * cols,
            out@.len() == r * cols,
            forall|i: int|
                0 <= i < r ==> is_softmax(
                    math,
                    #[trigger] row_of(m.data@, i, cols as int),
                    row_of(out@, i, cols as int),
                ),
        decreases rows - r,
    {
        proof {
            lemma_row(r as int, rows as int, cols as int);
        }
        let base: usize = r * cols;
        let row: Vec<F32> = softmax(math, slice_subrange(m.data.as_slice(), base, base + cols));
        let ghost before = out@;
        append_row(&mut out, row.as_slice());
        proof {
            assert forall|i: int| 0 <= i < r + 1 implies is_softmax(
                math,
                #[trigger] row_of(m.data@, i, cols as int),
                row_of(out@, i, cols as int),
            ) by {
                if i < r {
                    lemma_row(i, r as int, cols as int);
                    assert(row_of(out@, i, cols as int) =~= row_of(before, i, cols as int));
                } else {
                    assert(row_of(out@, i, cols as int) =~= row@);
                }
            }
        }
        r = r + 1;
    }
    Tensor::matrix(rows, cols, out)
}


// ---------------------------------------------------------------------------
// Quantized weights
// ---------------------------------------------------------------------------

/// `init + a[0] * level(0, j) + a[1] * level(1, j) + ...`, `p` products, added
/// from left to right.
pub open spec fn level_dot(init: F32, a: Seq<F32>, w: QWeight, j: int, p: nat) -> F32
    decreases p,
{
    if p == 0 {
        init
    } else {
        let q = p - 1;
        level_dot(init, a, w, j, q as nat).add_spec(a[q].mul_spec(of_int(w.level(q, j))))
    }
}

/// Row `i` of `x` with the row scales of `w` multiplied in.
pub open spec fn scaled_row(x: Tensor, w: QWeight, i: int) -> Seq<F32> {
    Seq::new(
        w.rows as nat,
        |p: int| x.data@[cell(i, p, w.rows as int)].mul_spec(w.scales@[p]),
    )
}

/// `t` is `x * w` on the quantized weight, starting from `bias` in every row.
pub open spec fn is_qlinear(x: Tensor, w: QWeight, bias: Seq<F32>, t: Tensor) -> bool {
    &&& x.is_matrix() && x.shape@[1] == w.rows
    &&& bias.len() == w.cols
    &&& t.is_sized(x.shape@[0] as int, w.cols as int)
    &&& forall|i: int, j: int|
        0 <= i < x.shape@[0] && 0 <= j < w.cols ==> #[trigger] t.at_spec(i, j) == level_dot(
            bias[j],
            scaled_row(x, w, i),
            w,
            j,
            w.rows as nat,
        )
}

/// Adds columns `j0..j1` of one output row to `out`, which holds those alone.
pub fn qaccum_cols(a_row: &[F32], w: &QWeight, j0: usize, j1: usize, out: &mut Vec<F32>)
    requires
        w.wf(),
        a_row@.len() == w.rows,
        j0 <= j1 <= w.cols,
        old(out)@.len() == j1 - j0,
    ensures
        final(out)@.len() == old(out)@.len(),
        forall|j: int|
            j0 <= j < j1 ==> #[trigger] final(out)@[j - j0] == level_dot(
                old(out)@[j - j0],
                a_row@,
                *w,
                j,
                w.rows as nat,
            ),
{
    let ghost start = out@;
    let mut p: usize = 0;
    while p < w.rows
        invariant
            w.wf(),
            a_row@.len() == w.rows,
            j0 <= j1 <= w.cols,
            p <= w.rows,
            start.len() == j1 - j0,
            out@.len() == start.len(),
            forall|j: int|
                j0 <= j < j1 ==> #[trigger] out@[j - j0] == level_dot(
                    start[j - j0],
                    a_row@,
                    *w,
                    j,
                    p as nat,
                ),
        decreases w.rows - p,
    {
        let ap: F32 = a_row[p];
        let ghost before = out@;
        let mut j: usize = j0;
        while j < j1
            invariant
                w.wf(),
                j0 <= j <= j1 <= w.cols,
                p < w.rows,
                ap == a_row@[p as int],
                start.len() == j1 - j0,
                out@.len() == start.len(),
                before.len() == start.len(),
                forall|c: int|
                    j0 <= c < j ==> #[trigger] out@[c - j0] == before[c - j0].add_spec(
                        ap.mul_spec(of_int(w.level(p as int, c))),
                    ),
                forall|c: int| j <= c < j1 ==> #[trigger] out@[c - j0] == before[c - j0],
            decreases j1 - j,
        {
            let level: i8 = w.level_at(p, j);
            let v: F32 = out[j - j0].add(ap.mul(F32::from_i64(level as i64)));
            out.set(j - j0, v);
            proof {
                assert forall|c: int| j0 <= c < j1 && c != j implies #[trigger] out@[c - j0] == (
                if c < j {
                    before[c - j0].add_spec(ap.mul_spec(of_int(w.level(p as int, c))))
                } else {
                    before[c - j0]
                }) by {}
            }
            j = j + 1;
        }
        p = p + 1;
    }
}

/// Affine layer on a quantized weight, which is never expanded.
pub fn qlinear(input: &Tensor, w: &QWeight, bias: &[F32]) -> (r: Result<Tensor>)
    requires
        input.wf(),
        w.wf(),
    ensures
        match r {
            Ok(t) => is_qlinear(*input, *w, bias@, t) && t.wf(),
            Err(e) => {
                ||| not_matrix(*input, e)
                ||| input.is_matrix() && (input.shape@[1] != w.rows || bias@.len() != w.cols
                    || input.shape@[0] * w.cols > usize::MAX) && e is DimMismatch
            },
        },
{
    let (m, k) = match input.matrix_dims() {
        Ok(d) => d,
        Err(e) => return Err(e),
    };
    if k != w.rows {
        return Err(mismatch("qlinear: input width ", k, " ≠ weight rows ", w.rows));
    }
    let n: usize = w.cols;
    if bias.len() != n {
        return Err(mismatch("qlinear: bias length ", bias.len(), " ≠ out_features ", n));
    }
    let total: usize = match m.checked_mul(n) {
        Some(t) => t,
        None => return Err(mismatch("qlinear: output too large: ", m, " by ", n)),
    };
    let held: usize = input.data.len();
    let mut out: Vec<F32> = Vec::with_capacity(total);
    let mut i: usize = 0;
    while i < m
        invariant
            i <= m,
            w.wf(),
            k == w.rows,
            n == w.cols == bias@.len(),
            total == m * n,
            held == input.data@.len(),
            input.data@.len() == m * k,
            out@.len() == i * n,
            forall|x: int, j: int|
                0 <= x < i && 0 <= j < n ==> #[trigger] out@[cell(x, j, n as int)] == level_dot(
                    bias@[j],
                    scaled_row(*input, *w, x),
                    *w,
                    j,
                    k as nat,
                ),
        decreases m - i,
    {
        proof {
            lemma_row(i as int, m as int, k as int);
            lemma_row(i as int, m as int, n as int);
        }
        let base: usize = i * k;
        // The weight scale of each row goes into the activations once.
        let mut a: Vec<F32> = Vec::with_capacity(k);
        let mut p: usize = 0;
        while p < k
            invariant
                p <= k,
                k == w.rows,
                w.wf(),
                base == i * k,
                base + k <= held == input.data@.len(),
                a@.len() == p,
                forall|x: int|
                    0 <= x < p ==> #[trigger] a@[x] == input.data@[base + x].mul_spec(
                        w.scales@[x],
                    ),
            decreases k - p,
        {
            a.push(input.data[base + p].mul(w.scales[p]));
            p = p + 1;
        }
        assert(a@ =~= scaled_row(*input, *w, i as int));
        let mut row: Vec<F32> = copy_f32(bias);
        qaccum_cols(a.as_slice(), w, 0, n, &mut row);
        let ghost before = out@;
        append_row(&mut out, row.as_slice());
        proof {
            assert forall|x: int, j: int| 0 <= x < i + 1 && 0 <= j < n implies #[trigger] out@[cell(
                x,
                j,
                n as int,
            )] == level_dot(bias@[j], scaled_row(*input, *w, x), *w, j, k as nat) by {
                if x < i {
                    lemma_cell(x, j, i as int, n as int);
                    assert(out@[cell(x, j, n as int)] == before[cell(x, j, n as int)]);
                } else {
                    assert(out@[cell(x, j, n as int)] == row@[j - 0]);
                }
            }
        }
        i = i + 1;
    }
    Tensor::matrix(m, n, out)
}

} // verus!
