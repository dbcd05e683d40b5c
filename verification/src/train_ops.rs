//! The steps of a decoder with their derivatives: affine layers, RMS norm, SiLU
//! and rotary positions.
use crate::activation::{is_sigmoid, sigmoid};
use crate::attention::dot_product;
use crate::float::{of_int, F32};
use crate::index::{cell, lemma_cell, lemma_row, lemma_split};
use crate::layer::Linear;
use crate::llm::{are_angles, inv_rms, inv_rms_exec, rms_row, rope_angles, turn, turned, RopeType};
use crate::math::Math;
use crate::ops::{append_row, dot, row_of};
use vstd::prelude::*;
use vstd::slice::slice_subrange;

verus! {

/// Gradients, or moments of gradients, of the weight and bias of a layer.
pub struct LinBuf {
    pub w: Vec<F32>,
    pub b: Vec<F32>,
}

impl LinBuf {
    /// The sizes are those of a layer.
    pub open spec fn suits(self, l: Linear) -> bool {
        self.w@.len() == l.in_f * l.out_f && self.b@.len() == l.out_f
    }
}

// ---------------------------------------------------------------------------
// Affine layers
// ---------------------------------------------------------------------------

/// A layer in full precision whose sizes agree.
pub open spec fn is_plain(l: Linear) -> bool {
    l.fits() && l.quant is None
}

/// What a layer makes of rows: the bias, and the products added to it.
pub open spec fn affine(l: Linear, x: Seq<F32>, rows: int) -> Seq<F32> {
    let k = l.in_f as int;
    let n = l.out_f as int;
    Seq::new(
        (rows * n) as nat,
        |t: int|
            dot(l.bias.data@[t % n], x, (t / n) * k, l.weight.data@, t % n, n, k as nat),
    )
}

/// The gradient of the input rows.
pub open spec fn affine_dx(l: Linear, dy: Seq<F32>, rows: int) -> Seq<F32> {
    let k = l.in_f as int;
    let n = l.out_f as int;
    Seq::new(
        (rows * k) as nat,
        |t: int|
            dot(F32 { bits: 0 }, dy, (t / k) * n, l.weight.data@, (t % k) * n, 1, n as nat),
    )
}

/// A number with the gradients of output `o` over `r` rows added to it.
pub open spec fn bias_sum(init: F32, dy: Seq<F32>, o: int, n: int, r: nat) -> F32
    decreases r,
{
    if r == 0 {
        init
    } else {
        bias_sum(init, dy, o, n, (r - 1) as nat).add_spec(dy[cell(r - 1, o, n)])
    }
}

/// A number with the products of input `i` and the gradients of output `o` over
/// `r` rows added to it.
pub open spec fn weight_sum(
    init: F32,
    x: Seq<F32>,
    i: int,
    k: int,
    dy: Seq<F32>,
    o: int,
    n: int,
    r: nat,
) -> F32
    decreases r,
{
    if r == 0 {
        init
    } else {
        weight_sum(init, x, i, k, dy, o, n, (r - 1) as nat).add_spec(
            x[cell(r - 1, i, k)].mul_spec(dy[cell(r - 1, o, n)]),
        )
    }
}

/// The gradient of the bias, added to what was there.
pub open spec fn affine_db(l: Linear, dy: Seq<F32>, rows: int, b: Seq<F32>) -> Seq<F32> {
    Seq::new(
        l.out_f as nat,
        |o: int| bias_sum(b[o], dy, o, l.out_f as int, rows as nat),
    )
}

/// The gradient of the weight, added to what was there.
pub open spec fn affine_dw(
    l: Linear,
    x: Seq<F32>,
    dy: Seq<F32>,
    rows: int,
    w: Seq<F32>,
) -> Seq<F32> {
    let k = l.in_f as int;
    let n = l.out_f as int;
    Seq::new(
        (k * n) as nat,
        |t: int| weight_sum(w[t], x, t / n, k, dy, t % n, n, rows as nat),
    )
}

/// The buffer of a layer before and behind its gradients.
pub open spec fn affine_adds(
    l: Linear,
    x: Seq<F32>,
    dy: Seq<F32>,
    rows: int,
    g0: LinBuf,
    g1: LinBuf,
) -> bool {
    &&& g1.w@ == affine_dw(l, x, dy, rows, g0.w@)
    &&& g1.b@ == affine_db(l, dy, rows, g0.b@)
}

/// What a layer makes of rows.
pub(crate) fn lin_forward(l: &Linear, x: &[F32], rows: usize) -> (y: Vec<F32>)
    requires
        is_plain(*l),
        x@.len() == rows * l.in_f,
        rows * l.out_f <= usize::MAX,
    ensures
        y@ == affine(*l, x@, rows as int),
        y@.len() == rows * l.out_f,
{
    let k: usize = l.in_f;
    let n: usize = l.out_f;
    let w: &[F32] = l.weight.data.as_slice();
    let ghost goal = affine(*l, x@, rows as int);
    let lx: usize = x.len();
    let lw: usize = w.len();
    let mut y: Vec<F32> = Vec::new();
    let mut r: usize = 0;
    assert(0 * n == 0) by (nonlinear_arith);
    while r < rows
        invariant
            is_plain(*l),
            k == l.in_f,
            n == l.out_f,
            w@ == l.weight.data@,
            lx == x@.len() == rows * k,
            lw == w@.len() == k * n,
            rows * n <= usize::MAX,
            goal == affine(*l, x@, rows as int),
            r <= rows,
            y@.len() == r * n,
            forall|t: int| 0 <= t < y@.len() ==> #[trigger] y@[t] == goal[t],
        decreases rows - r,
    {
        proof {
            lemma_row(r as int, rows as int, k as int);
            lemma_row(r as int, rows as int, n as int);
        }
        let base: usize = r * k;
        let mut o: usize = 0;
        while o < n
            invariant
                is_plain(*l),
                k == l.in_f,
                n == l.out_f,
                w@ == l.weight.data@,
                base == r * k,
                base + k <= lx == x@.len(),
                lw == w@.len() == k * n,
                goal == affine(*l, x@, rows as int),
                goal.len() == rows * n,
                r < rows,
                r * n + n <= rows * n,
                o <= n,
                y@.len() == r * n + o,
                forall|t: int| 0 <= t < y@.len() ==> #[trigger] y@[t] == goal[t],
            decreases n - o,
        {
            proof {
                if k > 0 {
                    assert(o + (k - 1) * n < k * n) by (nonlinear_arith)
                        requires
                            o < n,
                            k > 0,
                    ;
                }
                lemma_unsplit(r as int, o as int, n as int);
            }
            y.push(dot_product(l.bias.data[o], x, base, w, o, n, k));
            o = o + 1;
        }
        r = r + 1;
    }
    assert(y@ =~= goal);
    y
}

/// The row and column of a position.
pub(crate) proof fn lemma_unsplit(i: int, j: int, c: int)
    requires
        0 <= i,
        0 <= j < c,
    ensures
        (i * c + j) / c == i,
        (i * c + j) % c == j,
{
    let t = i * c + j;
    assert(t / c == i && t % c == j) by (nonlinear_arith)
        requires
            t == i * c + j,
            0 <= j < c,
            0 <= i,
    ;
}

/// Adds the gradients of a layer to its buffer; the gradient of its input.
pub(crate) fn lin_backward(l: &Linear, x: &[F32], dy: &[F32], rows: usize, g: &mut LinBuf) -> (dx:
    Vec<F32>)
    requires
        is_plain(*l),
        x@.len() == rows * l.in_f,
        dy@.len() == rows * l.out_f,
        old(g).suits(*l),
    ensures
        affine_adds(*l, x@, dy@, rows as int, *old(g), *final(g)),
        final(g).suits(*l),
        dx@ == affine_dx(*l, dy@, rows as int),
        dx@.len() == rows * l.in_f,
{
    let k: usize = l.in_f;
    let n: usize = l.out_f;
    let held: usize = x.len();
    assert(held == rows * k);
    add_bias_gradient(&mut g.b, dy, rows, n);
    add_weight_gradient(&mut g.w, x, dy, rows, k, n);
    proof {
        assert(g.b@ =~= affine_db(*l, dy@, rows as int, old(g).b@));
        assert(g.w@ =~= affine_dw(*l, x@, dy@, rows as int, old(g).w@));
    }
    input_gradient(l, dy, rows)
}

fn add_bias_gradient(b: &mut Vec<F32>, dy: &[F32], rows: usize, n: usize)
    requires
        old(b)@.len() == n,
        dy@.len() == rows * n,
    ensures
        final(b)@.len() == n,
        forall|o: int|
            0 <= o < n ==> #[trigger] final(b)@[o] == bias_sum(
                old(b)@[o],
                dy@,
                o,
                n as int,
                rows as nat,
            ),
{
    let ghost b0 = b@;
    let total: usize = dy.len();
    let mut o: usize = 0;
    while o < n
        invariant
            o <= n,
            total == dy@.len() == rows * n,
            b@.len() == n == b0.len(),
            forall|c: int|
                0 <= c < o ==> #[trigger] b@[c] == bias_sum(b0[c], dy@, c, n as int, rows as nat),
            forall|c: int| o <= c < n ==> #[trigger] b@[c] == b0[c],
        decreases n - o,
    {
        let mut acc: F32 = b[o];
        let mut r: usize = 0;
        while r < rows
            invariant
                r <= rows,
                o < n,
                total == dy@.len() == rows * n,
                acc == bias_sum(b0[o as int], dy@, o as int, n as int, r as nat),
            decreases rows - r,
        {
            proof {
                lemma_cell(r as int, o as int, rows as int, n as int);
                assert((r + 1 - 1) as nat == r as nat);
            }
            acc = acc.add(dy[r * n + o]);
            r = r + 1;
        }
        b.set(o, acc);
        o = o + 1;
    }
}

fn add_weight_gradient(w: &mut Vec<F32>, x: &[F32], dy: &[F32], rows: usize, k: usize, n: usize)
    requires
        old(w)@.len() == k * n,
        x@.len() == rows * k,
        dy@.len() == rows * n,
    ensures
        final(w)@.len() == k * n,
        forall|t: int|
            0 <= t < k * n ==> #[trigger] final(w)@[t] == weight_sum(
                old(w)@[t],
                x@,
                t / (n as int),
                k as int,
                dy@,
                t % (n as int),
                n as int,
                rows as nat,
            ),
{
    let ghost w0 = w@;
    let total: usize = w.len();
    let lx: usize = x.len();
    let ly: usize = dy.len();
    let mut t: usize = 0;
    while t < total
        invariant
            t <= total,
            total == w@.len() == w0.len() == k * n,
            lx == x@.len() == rows * k,
            ly == dy@.len() == rows * n,
            forall|c: int|
                0 <= c < t ==> #[trigger] w@[c] == weight_sum(
                    w0[c],
                    x@,
                    c / (n as int),
                    k as int,
                    dy@,
                    c % (n as int),
                    n as int,
                    rows as nat,
                ),
            forall|c: int| t <= c < total ==> #[trigger] w@[c] == w0[c],
        decreases total - t,
    {
        proof {
            lemma_split(t as int, k as int, n as int);
        }
        let i: usize = t / n;
        let o: usize = t % n;
        let mut acc: F32 = w[t];
        let mut r: usize = 0;
        while r < rows
            invariant
                r <= rows,
                i < k,
                o < n,
                lx == x@.len() == rows * k,
                ly == dy@.len() == rows * n,
                acc == weight_sum(
                    w0[t as int],
                    x@,
                    i as int,
                    k as int,
                    dy@,
                    o as int,
                    n as int,
                    r as nat,
                ),
            decreases rows - r,
        {
            proof {
                lemma_cell(r as int, i as int, rows as int, k as int);
                lemma_cell(r as int, o as int, rows as int, n as int);
                assert((r + 1 - 1) as nat == r as nat);
            }
            acc = acc.add(x[r * k + i].mul(dy[r * n + o]));
            r = r + 1;
        }
        w.set(t, acc);
        t = t + 1;
    }
}

fn input_gradient(l: &Linear, dy: &[F32], rows: usize) -> (dx: Vec<F32>)
    requires
        is_plain(*l),
        dy@.len() == rows * l.out_f,
        rows * l.in_f <= usize::MAX,
    ensures
        dx@ == affine_dx(*l, dy@, rows as int),
        dx@.len() == rows * l.in_f,
{
    let k: usize = l.in_f;
    let n: usize = l.out_f;
    let w: &[F32] = l.weight.data.as_slice();
    let ghost goal = affine_dx(*l, dy@, rows as int);
    let total: usize = rows * k;
    let ly: usize = dy.len();
    let lw: usize = w.len();
    let mut dx: Vec<F32> = Vec::new();
    let mut t: usize = 0;
    while t < total
        invariant
            t <= total == rows * k,
            w@ == l.weight.data@,
            lw == w@.len() == k * n,
            ly == dy@.len() == rows * n,
            k == l.in_f,
            n == l.out_f,
            goal == affine_dx(*l, dy@, rows as int),
            dx@.len() == t,
            forall|c: int| 0 <= c < t ==> #[trigger] dx@[c] == goal[c],
        decreases total - t,
    {
        proof {
            lemma_split(t as int, rows as int, k as int);
            lemma_row(t as int / k as int, rows as int, n as int);
            lemma_row(t as int % k as int, k as int, n as int);
        }
        let r: usize = t / k;
        let i: usize = t % k;
        dx.push(dot_product(F32::zero(), dy, r * n, w, i * n, 1, n));
        t = t + 1;
    }
    assert(dx@ =~= goal);
    dx
}

// ---------------------------------------------------------------------------
// RMS norm
// ---------------------------------------------------------------------------

/// Rows, each normalised.
pub open spec fn rms_rows(x: Seq<F32>, w: Seq<F32>, eps: F32, rows: int) -> Seq<F32> {
    let d = w.len() as int;
    Seq::new((rows * d) as nat, |t: int| rms_row(row_of(x, t / d, d), w, eps)[t % d])
}

/// The reciprocal root mean squares of rows.
pub open spec fn rms_invs(x: Seq<F32>, d: int, eps: F32, rows: int) -> Seq<F32> {
    Seq::new(rows as nat, |r: int| inv_rms(row_of(x, r, d), eps))
}

/// The sum of gradient, weight and input, multiplied, over the first `n`
/// channels.
pub open spec fn norm_dot(dy: Seq<F32>, w: Seq<F32>, x: Seq<F32>, n: nat) -> F32
    decreases n,
{
    if n == 0 {
        F32 { bits: 0 }
    } else {
        norm_dot(dy, w, x, (n - 1) as nat).add_spec(
            dy[n - 1].mul_spec(w[n - 1]).mul_spec(x[n - 1]),
        )
    }
}

/// The gradient of channel `j` of a row.
pub open spec fn norm_dx(dy: Seq<F32>, x: Seq<F32>, w: Seq<F32>, inv: F32, j: int) -> F32 {
    let inv3 = inv.mul_spec(inv).mul_spec(inv).div_spec(of_int(x.len() as int));
    inv.mul_spec(dy[j]).mul_spec(w[j]).sub_spec(
        inv3.mul_spec(x[j]).mul_spec(norm_dot(dy, w, x, x.len())),
    )
}

/// The gradient of rows.
pub open spec fn norm_rows_dx(
    dy: Seq<F32>,
    x: Seq<F32>,
    w: Seq<F32>,
    invs: Seq<F32>,
    rows: int,
) -> Seq<F32> {
    let d = w.len() as int;
    Seq::new(
        (rows * d) as nat,
        |t: int| norm_dx(row_of(dy, t / d, d), row_of(x, t / d, d), w, invs[t / d], t % d),
    )
}

/// A number with the gradients of weight `i` over `r` rows added to it.
pub open spec fn norm_sum(
    init: F32,
    dy: Seq<F32>,
    x: Seq<F32>,
    invs: Seq<F32>,
    i: int,
    d: int,
    r: nat,
) -> F32
    decreases r,
{
    if r == 0 {
        init
    } else {
        norm_sum(init, dy, x, invs, i, d, (r - 1) as nat).add_spec(
            dy[cell(r - 1, i, d)].mul_spec(x[cell(r - 1, i, d)]).mul_spec(invs[r - 1]),
        )
    }
}

/// The gradient of the weights, added to what was there.
pub open spec fn norm_dw(
    dy: Seq<F32>,
    x: Seq<F32>,
    invs: Seq<F32>,
    rows: int,
    dw: Seq<F32>,
) -> Seq<F32> {
    Seq::new(
        dw.len(),
        |i: int| norm_sum(dw[i], dy, x, invs, i, dw.len() as int, rows as nat),
    )
}

/// Rows, each normalised, and their reciprocal root mean squares.
pub fn norm_forward(x: &[F32], w: &[F32], eps: F32, rows: usize) -> (r: (
    Vec<F32>,
    Vec<F32>,
))
    requires
        x@.len() == rows * w@.len(),
    ensures
        r.0@ == rms_rows(x@, w@, eps, rows as int),
        r.0@.len() == x@.len(),
        r.1@ == rms_invs(x@, w@.len() as int, eps, rows as int),
{
    let d: usize = w.len();
    let total: usize = x.len();
    let ghost goal = rms_rows(x@, w@, eps, rows as int);
    let mut y: Vec<F32> = Vec::new();
    let mut invs: Vec<F32> = Vec::new();
    let mut r: usize = 0;
    assert(0 * d == 0) by (nonlinear_arith);
    while r < rows
        invariant
            r <= rows,
            d == w@.len(),
            total == x@.len() == rows * d,
            goal == rms_rows(x@, w@, eps, rows as int),
            goal.len() == rows * d,
            y@.len() == r * d,
            invs@.len() == r,
            forall|t: int| 0 <= t < y@.len() ==> #[trigger] y@[t] == goal[t],
            forall|t: int|
                0 <= t < r ==> #[trigger] invs@[t] == inv_rms(row_of(x@, t, d as int), eps),
        decreases rows - r,
    {
        proof {
            lemma_row(r as int, rows as int, d as int);
        }
        let base: usize = r * d;
        let row: &[F32] = slice_subrange(x, base, base + d);
        assert(row@ == row_of(x@, r as int, d as int));
        let inv: F32 = inv_rms_exec(row, eps);
        let mut j: usize = 0;
        while j < d
            invariant
                r < rows,
                j <= d == w@.len(),
                row@ == row_of(x@, r as int, d as int),
                row@.len() == d,
                inv == inv_rms(row@, eps),
                goal == rms_rows(x@, w@, eps, rows as int),
                goal.len() == rows * d,
                r * d + d <= rows * d,
                y@.len() == r * d + j,
                forall|t: int| 0 <= t < y@.len() ==> #[trigger] y@[t] == goal[t],
            decreases d - j,
        {
            proof {
                lemma_unsplit(r as int, j as int, d as int);
            }
            y.push(row[j].mul(inv).mul(w[j]));
            j = j + 1;
        }
        invs.push(inv);
        r = r + 1;
    }
    assert(y@ =~= goal);
    assert(invs@ =~= rms_invs(x@, d as int, eps, rows as int));
    (y, invs)
}

fn norm_dot_exec(dy: &[F32], w: &[F32], x: &[F32]) -> (g: F32)
    requires
        dy@.len() == w@.len() == x@.len(),
    ensures
        g == norm_dot(dy@, w@, x@, x@.len()),
{
    let mut g: F32 = F32::zero();
    let mut i: usize = 0;
    while i < x.len()
        invariant
            i <= x@.len(),
            dy@.len() == w@.len() == x@.len(),
            g == norm_dot(dy@, w@, x@, i as nat),
        decreases x@.len() - i,
    {
        proof {
            assert((i + 1 - 1) as nat == i as nat);
        }
        g = g.add(dy[i].mul(w[i]).mul(x[i]));
        i = i + 1;
    }
    g
}

/// Adds the gradient of the weights to `dw`; the gradient of the rows.
pub fn norm_backward(
    dy: &[F32],
    x: &[F32],
    w: &[F32],
    invs: &[F32],
    rows: usize,
    dw: &mut Vec<F32>,
) -> (dx: Vec<F32>)
    requires
        x@.len() == rows * w@.len(),
        dy@.len() == x@.len(),
        invs@.len() == rows,
        old(dw)@.len() == w@.len(),
    ensures
        dx@ == norm_rows_dx(dy@, x@, w@, invs@, rows as int),
        dx@.len() == x@.len(),
        final(dw)@ == norm_dw(dy@, x@, invs@, rows as int, old(dw)@),
        final(dw)@.len() == old(dw)@.len(),
{
    add_norm_gradient(dw, dy, x, invs, rows);
    let d: usize = w.len();
    let total: usize = x.len();
    let ghost goal = norm_rows_dx(dy@, x@, w@, invs@, rows as int);
    let n: F32 = F32::from_u64(d as u64);
    let mut dx: Vec<F32> = Vec::new();
    let mut r: usize = 0;
    assert(0 * d == 0) by (nonlinear_arith);
    while r < rows
        invariant
            r <= rows == invs@.len(),
            d == w@.len(),
            n == of_int(d as int),
            total == x@.len() == rows * d,
            dy@.len() == total,
            goal == norm_rows_dx(dy@, x@, w@, invs@, rows as int),
            goal.len() == rows * d,
            dx@.len() == r * d,
            forall|t: int| 0 <= t < dx@.len() ==> #[trigger] dx@[t] == goal[t],
        decreases rows - r,
    {
        proof {
            lemma_row(r as int, rows as int, d as int);
        }
        let base: usize = r * d;
        let xr: &[F32] = slice_subrange(x, base, base + d);
        let dr: &[F32] = slice_subrange(dy, base, base + d);
        assert(xr@ == row_of(x@, r as int, d as int));
        assert(dr@ == row_of(dy@, r as int, d as int));
        let inv: F32 = invs[r];
        let g: F32 = norm_dot_exec(dr, w, xr);
        let inv3: F32 = inv.mul(inv).mul(inv).div(n);
        let mut j: usize = 0;
        while j < d
            invariant
                r < rows == invs@.len(),
                j <= d == w@.len(),
                xr@ == row_of(x@, r as int, d as int),
                dr@ == row_of(dy@, r as int, d as int),
                xr@.len() == d,
                dr@.len() == d,
                inv == invs@[r as int],
                g == norm_dot(dr@, w@, xr@, xr@.len()),
                inv3 == inv.mul_spec(inv).mul_spec(inv).div_spec(of_int(d as int)),
                goal == norm_rows_dx(dy@, x@, w@, invs@, rows as int),
                goal.len() == rows * d,
                r * d + d <= rows * d,
                dx@.len() == r * d + j,
                forall|t: int| 0 <= t < dx@.len() ==> #[trigger] dx@[t] == goal[t],
            decreases d - j,
        {
            proof {
                lemma_unsplit(r as int, j as int, d as int);
            }
            dx.push(inv.mul(dr[j]).mul(w[j]).sub(inv3.mul(xr[j]).mul(g)));
            j = j + 1;
        }
        r = r + 1;
    }
    assert(dx@ =~= goal);
    dx
}

fn add_norm_gradient(dw: &mut Vec<F32>, dy: &[F32], x: &[F32], invs: &[F32], rows: usize)
    requires
        x@.len() == rows * old(dw)@.len(),
        dy@.len() == x@.len(),
        invs@.len() == rows,
    ensures
        final(dw)@ == norm_dw(dy@, x@, invs@, rows as int, old(dw)@),
{
    let ghost w0 = dw@;
    let d: usize = dw.len();
    let total: usize = x.len();
    let mut i: usize = 0;
    while i < d
        invariant
            i <= d == dw@.len() == w0.len(),
            total == x@.len() == rows * d,
            dy@.len() == total,
            invs@.len() == rows,
            forall|c: int|
                0 <= c < i ==> #[trigger] dw@[c] == norm_sum(
                    w0[c],
                    dy@,
                    x@,
                    invs@,
                    c,
                    d as int,
                    rows as nat,
                ),
            forall|c: int| i <= c < d ==> #[trigger] dw@[c] == w0[c],
        decreases d - i,
    {
        let mut acc: F32 = dw[i];
        let mut r: usize = 0;
        while r < rows
            invariant
                r <= rows == invs@.len(),
                i < d,
                total == x@.len() == rows * d,
                dy@.len() == total,
                acc == norm_sum(w0[i as int], dy@, x@, invs@, i as int, d as int, r as nat),
            decreases rows - r,
        {
            proof {
                lemma_cell(r as int, i as int, rows as int, d as int);
                assert((r + 1 - 1) as nat == r as nat);
            }
            let at: usize = r * d + i;
            acc = acc.add(dy[at].mul(x[at]).mul(invs[r]));
            r = r + 1;
        }
        dw.set(i, acc);
        i = i + 1;
    }
    assert(dw@ =~= norm_dw(dy@, x@, invs@, rows as int, w0));
}

// ---------------------------------------------------------------------------
// SiLU
// ---------------------------------------------------------------------------

/// `y` is `x * sigmoid(x)`.
pub open spec fn is_swish<M: Math>(m: &M, x: F32, y: F32) -> bool {
    exists|s: F32| #[trigger] is_sigmoid(m, x, s) && y == x.mul_spec(s)
}

/// `y` is the derivative of `x * sigmoid(x)`.
pub open spec fn is_swish_slope<M: Math>(m: &M, x: F32, y: F32) -> bool {
    exists|s: F32| #[trigger]
        is_sigmoid(m, x, s) && y == s.mul_spec(
            F32 { bits: 0x3f80_0000 }.add_spec(
                x.mul_spec(F32 { bits: 0x3f80_0000 }.sub_spec(s)),
            ),
        )
}

/// `x * sigmoid(x)`.
pub fn swish<M: Math>(m: &M, x: F32) -> (y: F32)
    ensures
        is_swish(m, x, y),
{
    let s: F32 = sigmoid(m, x);
    assert(is_sigmoid(m, x, s));
    x.mul(s)
}

/// The derivative of `x * sigmoid(x)`.
pub fn silu_grad<M: Math>(m: &M, x: F32) -> (y: F32)
    ensures
        is_swish_slope(m, x, y),
{
    let s: F32 = sigmoid(m, x);
    assert(is_sigmoid(m, x, s));
    s.mul(F32::one().add(x.mul(F32::one().sub(s))))
}

// ---------------------------------------------------------------------------
// Rotary positions
// ---------------------------------------------------------------------------

/// The settings of rotary positions.
#[derive(Clone, Copy, Debug)]
pub struct Rope {
    pub head_dim: usize,
    pub rope_dim: usize,
    pub base: F32,
    pub kind: RopeType,
}

impl Rope {
    /// The channels that turn are pairs within a head.
    pub open spec fn wf(self) -> bool {
        self.rope_dim <= self.head_dim && self.rope_dim % 2 == 0
    }

    /// `y` is `x` turned by the angles of position `pos`, or turned back by them.
    pub open spec fn turns<M: Math>(
        self,
        m: &M,
        x: Seq<F32>,
        y: Seq<F32>,
        heads: int,
        pos: usize,
        back: bool,
    ) -> bool {
        exists|sines: Seq<F32>, cosines: Seq<F32>| #[trigger]
            are_angles(m, sines, cosines, heads, self.rope_dim, pos, self.base) && y == turned(
                x,
                if back {
                    sines.map_values(|s: F32| s.negated())
                } else {
                    sines
                },
                cosines,
                self.head_dim as int,
                self.rope_dim as int,
                self.kind,
            )
    }

    /// Each row of `y` is the row of `x` turned, or turned back, by the angles of
    /// its place.
    pub open spec fn turns_rows<M: Math>(
        self,
        m: &M,
        x: Seq<F32>,
        y: Seq<F32>,
        heads: int,
        rows: int,
        back: bool,
    ) -> bool {
        let w = heads * self.head_dim;
        &&& y.len() == x.len()
        &&& forall|r: int|
            0 <= r < rows ==> self.turns(
                m,
                #[trigger] row_of(x, r, w),
                row_of(y, r, w),
                heads,
                r as usize,
                back,
            )
    }

    /// One row, turned or turned back by the angles of a position.
    pub fn apply<M: Math>(&self, m: &M, x: &[F32], heads: usize, pos: usize, back: bool) -> (y: Vec<
        F32,
    >)
        requires
            self.wf(),
            x@.len() == heads * self.head_dim,
        ensures
            self.turns(m, x@, y@, heads as int, pos, back),
            y@.len() == x@.len(),
    {
        let (sines, cosines) = rope_angles(m, heads, self.rope_dim, pos, self.base);
        let ghost s0 = sines@;
        assert(are_angles(m, s0, cosines@, heads as int, self.rope_dim, pos, self.base));
        let used: Vec<F32> = if back {
            negated(&sines)
        } else {
            sines
        };
        turn(x, &used, &cosines, heads, self.head_dim, self.rope_dim, self.kind)
    }

    /// Every row, turned or turned back by the angles of its place.
    pub(crate) fn apply_rows<M: Math>(
        &self,
        m: &M,
        x: &[F32],
        heads: usize,
        rows: usize,
        back: bool,
    ) -> (y: Vec<F32>)
        requires
            self.wf(),
            heads * self.head_dim <= usize::MAX,
            x@.len() == rows * (heads * self.head_dim),
        ensures
            self.turns_rows(m, x@, y@, heads as int, rows as int, back),
    {
        let w: usize = heads * self.head_dim;
        let total: usize = x.len();
        let mut y: Vec<F32> = Vec::new();
        let mut r: usize = 0;
        assert(0 * w == 0) by (nonlinear_arith);
        while r < rows
            invariant
                self.wf(),
                r <= rows,
                w == heads * self.head_dim,
                total == x@.len() == rows * w,
                y@.len() == r * w,
                forall|t: int|
                    0 <= t < r ==> self.turns(
                        m,
                        #[trigger] row_of(x@, t, w as int),
                        row_of(y@, t, w as int),
                        heads as int,
                        t as usize,
                        back,
                    ),
            decreases rows - r,
        {
            proof {
                lemma_row(r as int, rows as int, w as int);
            }
            let base: usize = r * w;
            let row: Vec<F32> = self.apply(
                m,
                slice_subrange(x, base, base + w),
                heads,
                r,
                back,
            );
            let ghost before = y@;
            append_row(&mut y, row.as_slice());
            proof {
                assert forall|t: int| 0 <= t < r + 1 implies self.turns(
                    m,
                    #[trigger] row_of(x@, t, w as int),
                    row_of(y@, t, w as int),
                    heads as int,
                    t as usize,
                    back,
                ) by {
                    if t < r {
                        lemma_row(t, r as int, w as int);
                        assert(row_of(y@, t, w as int) =~= row_of(before, t, w as int));
                    } else {
                        assert(row_of(y@, t, w as int) =~= row@);
                    }
                }
            }
            r = r + 1;
        }
        y
    }
}

/// The negated numbers.
fn negated(v: &Vec<F32>) -> (r: Vec<F32>)
    ensures
        r@ == v@.map_values(|s: F32| s.negated()),
{
    let mut r: Vec<F32> = Vec::new();
    let mut i: usize = 0;
    while i < v.len()
        invariant
            i <= v@.len(),
            r@.len() == i,
            forall|k: int| 0 <= k < i ==> #[trigger] r@[k] == v@[k].negated(),
        decreases v@.len() - i,
    {
        r.push(v[i].neg());
        i = i + 1;
    }
    assert(r@ =~= v@.map_values(|s: F32| s.negated()));
    r
}

} // verus!
