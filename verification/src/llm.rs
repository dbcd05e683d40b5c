//! Decoder blocks of the Llama and Qwen family: RMS norm, rotary positions,
//! grouped-query attention, SwiGLU feed-forward, and models made of them.
use crate::activation::{is_silu, silu};
use crate::attention::{attend_head, head_scale, head_scale_of, mix_of, scores_of};
pub use crate::decoder::{LlamaCache, LlamaConfig, LlamaModel};
use crate::error::{InferError, Result};
use crate::float::{of_int, F32};
use crate::index::lemma_row;
use crate::layer::{Forward, Linear};
use crate::math::{is_cos, is_inv_freq, is_sin, Math};
use crate::ops::{
    append_row, dot, is_softmax, level_dot, mismatch, not_matrix, row_of, scaled_row, sum, sum_of,
};
use crate::tensor::{copy_f32, lemma_product_2, Tensor};
use vstd::prelude::*;
use vstd::slice::slice_subrange;

verus! {

// ---------------------------------------------------------------------------
// Affine layers row by row
// ---------------------------------------------------------------------------

impl Linear {
    /// What the layer makes of one row.
    pub open spec fn image(self, x: Seq<F32>) -> Seq<F32> {
        Seq::new(
            self.out_f as nat,
            |j: int|
                match self.quant {
                    Some(w) => level_dot(
                        self.bias.data@[j],
                        Seq::new(w.rows as nat, |p: int| x[p].mul_spec(w.scales@[p])),
                        w,
                        j,
                        w.rows as nat,
                    ),
                    None => dot(
                        F32 { bits: 0 },
                        x,
                        0,
                        self.weight.data@,
                        j,
                        self.out_f as int,
                        self.in_f as nat,
                    ).add_spec(self.bias.data@[j]),
                },
        )
    }
}

/// A sum of products over part of a row is one over the part alone.
pub proof fn lemma_dot_shift(
    init: F32,
    a: Seq<F32>,
    a0: int,
    n: int,
    b: Seq<F32>,
    b0: int,
    step: int,
    p: nat,
)
    requires
        0 <= a0,
        p <= n,
        a0 + n <= a.len(),
    ensures
        dot(init, a, a0, b, b0, step, p) == dot(init, a.subrange(a0, a0 + n), 0, b, b0, step, p),
    decreases p,
{
    if p > 0 {
        lemma_dot_shift(init, a, a0, n, b, b0, step, (p - 1) as nat);
    }
}

/// The rows of an affine image are the images of the rows.
pub proof fn lemma_image_rows(l: Linear, x: Tensor, t: Tensor, i: int)
    requires
        l.fits(),
        l.maps(x, t),
        x.wf(),
        0 <= i < x.shape@[0],
    ensures
        row_of(t.data@, i, l.out_f as int) == l.image(row_of(x.data@, i, l.in_f as int)),
{
    lemma_product_2(x.shape@);
    let k = l.in_f as int;
    let n = l.out_f as int;
    lemma_row(i, x.shape@[0] as int, k);
    lemma_row(i, x.shape@[0] as int, n);
    let row = row_of(x.data@, i, k);
    let got = row_of(t.data@, i, n);
    let want = l.image(row);
    assert forall|j: int| 0 <= j < n implies got[j] == want[j] by {
        assert(got[j] == t.at_spec(i, j));
        match l.quant {
            Some(w) => {
                assert(scaled_row(x, w, i) =~= Seq::new(
                    w.rows as nat,
                    |p: int| row[p].mul_spec(w.scales@[p]),
                ));
            },
            None => {
                lemma_dot_shift(F32 { bits: 0 }, x.data@, i * k, k, l.weight.data@, j, n, k as nat);
            },
        }
    }
    assert(got =~= want);
}

/// The layer on one row.
pub(crate) fn linear_row(l: &Linear, x: Vec<F32>) -> (y: Vec<F32>)
    requires
        l.fits(),
        x@.len() == l.in_f,
    ensures
        y@ == l.image(x@),
{
    let ghost row = x@;
    let t: Tensor = match Tensor::row(x) {
        Ok(t) => t,
        Err(_) => return Vec::new(),
    };
    let r: Result<Tensor> = match &l.quant {
        Some(w) => crate::ops::qlinear(&t, w, l.bias.data.as_slice()),
        None => crate::ops::linear_forward(&t, &l.weight, l.bias.data.as_slice()),
    };
    proof {
        assert(1 * l.out_f == l.out_f) by (nonlinear_arith);
    }
    match r {
        Ok(y) => {
            proof {
                lemma_image_rows(*l, t, y, 0);
                assert(0 * l.in_f == 0) by (nonlinear_arith);
                assert(0 * l.out_f == 0) by (nonlinear_arith);
                assert(row_of(t.data@, 0, l.in_f as int) =~= row);
                assert(row_of(y.data@, 0, l.out_f as int) =~= y.data@);
            }
            y.data
        },
        Err(_) => Vec::new(),
    }
}

/// Element-wise sum of two rows.
pub open spec fn add_rows(a: Seq<F32>, b: Seq<F32>) -> Seq<F32> {
    Seq::new(a.len(), |i: int| a[i].add_spec(b[i]))
}

/// Element-wise sum of two rows.
pub(crate) fn add_rows_exec(a: &[F32], b: &[F32]) -> (y: Vec<F32>)
    requires
        b@.len() == a@.len(),
    ensures
        y@ == add_rows(a@, b@),
{
    let mut y: Vec<F32> = Vec::with_capacity(a.len());
    let mut i: usize = 0;
    while i < a.len()
        invariant
            i <= a.len(),
            b@.len() == a@.len(),
            y@.len() == i,
            forall|j: int| 0 <= j < i ==> #[trigger] y@[j] == a@[j].add_spec(b@[j]),
        decreases a.len() - i,
    {
        y.push(a[i].add(b[i]));
        i = i + 1;
    }
    assert(y@ =~= add_rows(a@, b@));
    y
}

// ---------------------------------------------------------------------------
// RMS norm
// ---------------------------------------------------------------------------

/// `x / sqrt(mean(x^2) + eps) * weight`.
#[derive(Clone, Debug)]
pub struct RmsNorm {
    pub weight: Vec<F32>,
    pub eps: F32,
}

/// The reciprocal root mean square of a row, kept finite by `eps`.
pub open spec fn inv_rms(x: Seq<F32>, eps: F32) -> F32 {
    F32 { bits: 0x3f80_0000 }.div_spec(
        sum_of(x.map_values(|v: F32| v.mul_spec(v))).div_spec(of_int(x.len() as int)).add_spec(
            eps,
        ).sqrt_spec(),
    )
}

/// One normalised row.
pub open spec fn rms_row(x: Seq<F32>, weight: Seq<F32>, eps: F32) -> Seq<F32> {
    Seq::new(x.len(), |i: int| x[i].mul_spec(inv_rms(x, eps)).mul_spec(weight[i]))
}

/// The reciprocal root mean square of a row.
pub(crate) fn inv_rms_exec(x: &[F32], eps: F32) -> (r: F32)
    ensures
        r == inv_rms(x@, eps),
{
    let mut squares: Vec<F32> = Vec::with_capacity(x.len());
    let mut i: usize = 0;
    while i < x.len()
        invariant
            i <= x.len(),
            squares@.len() == i,
            forall|j: int| 0 <= j < i ==> #[trigger] squares@[j] == x@[j].mul_spec(x@[j]),
        decreases x.len() - i,
    {
        squares.push(x[i].mul(x[i]));
        i = i + 1;
    }
    assert(squares@ =~= x@.map_values(|v: F32| v.mul_spec(v)));
    F32::one().div(
        sum(squares.as_slice()).div(F32::from_u64(x.len() as u64)).add(eps).sqrt(),
    )
}

impl RmsNorm {
    /// A norm with the given weights.
    pub fn new(weight: Vec<F32>, eps: F32) -> (n: Self)
        ensures
            n.weight@ == weight@,
            n.eps == eps,
    {
        RmsNorm { weight, eps }
    }

    /// The width.
    pub fn dim(&self) -> (n: usize)
        ensures
            n == self.weight@.len(),
    {
        self.weight.len()
    }

    /// What the norm makes of one row.
    pub open spec fn image(self, x: Seq<F32>) -> Seq<F32> {
        rms_row(x, self.weight@, self.eps)
    }

    /// Normalises one row into `out`.
    pub fn forward_row(&self, x: &[F32], out: &mut Vec<F32>)
        requires
            x@.len() == self.weight@.len(),
            old(out)@.len() == self.weight@.len(),
        ensures
            final(out)@ == self.image(x@),
    {
        let y: Vec<F32> = self.row(x);
        *out = y;
    }

    /// One normalised row.
    pub(crate) fn row(&self, x: &[F32]) -> (y: Vec<F32>)
        requires
            x@.len() == self.weight@.len(),
        ensures
            y@ == self.image(x@),
    {
        let inv: F32 = inv_rms_exec(x, self.eps);
        let mut y: Vec<F32> = Vec::with_capacity(x.len());
        let mut i: usize = 0;
        while i < x.len()
            invariant
                i <= x.len(),
                x@.len() == self.weight@.len(),
                inv == inv_rms(x@, self.eps),
                y@.len() == i,
                forall|j: int| 0 <= j < i ==> #[trigger] y@[j] == self.image(x@)[j],
            decreases x.len() - i,
        {
            y.push(x[i].mul(inv).mul(self.weight[i]));
            i = i + 1;
        }
        assert(y@ =~= self.image(x@));
        y
    }

    /// Normalises every row.
    pub fn forward(&self, x: &Tensor) -> (r: Result<Tensor>)
        requires
            x.wf(),
        ensures
            match r {
                Ok(t) => {
                    &&& x.is_matrix() && x.shape@[1] == self.weight@.len()
                    &&& t.wf() && t.is_sized(x.shape@[0] as int, x.shape@[1] as int)
                    &&& forall|i: int|
                        0 <= i < x.shape@[0] ==> #[trigger] row_of(
                            t.data@,
                            i,
                            x.shape@[1] as int,
                        ) == self.image(row_of(x.data@, i, x.shape@[1] as int))
                },
                Err(e) => not_matrix(*x, e) || (x.is_matrix() && x.shape@[1] != self.weight@.len()
                    && e is DimMismatch),
            },
    {
        let (rows, cols) = match x.matrix_dims() {
            Ok(d) => d,
            Err(e) => return Err(e),
        };
        if cols != self.weight.len() {
            return Err(mismatch("RmsNorm expects width ", self.weight.len(), ", got ", cols));
        }
        let total: usize = x.data.len();
        let mut out: Vec<F32> = Vec::with_capacity(total);
        let mut r: usize = 0;
        while r < rows
            invariant
                r <= rows,
                cols == self.weight@.len(),
                total == x.data@.len(),
                x.data@.len() == rows * cols,
                out@.len() == r * cols,
                forall|i: int|
                    0 <= i < r ==> #[trigger] row_of(out@, i, cols as int) == self.image(
                        row_of(x.data@, i, cols as int),
                    ),
            decreases rows - r,
        {
            proof {
                lemma_row(r as int, rows as int, cols as int);
            }
            let base: usize = r * cols;
            let row: Vec<F32> = self.row(slice_subrange(x.data.as_slice(), base, base + cols));
            let ghost before = out@;
            append_row(&mut out, row.as_slice());
            proof {
                lemma_rows_extend(before, row@, r as int, cols as int);
                assert forall|i: int| 0 <= i < r + 1 implies #[trigger] row_of(out@, i, cols as int)
                    == self.image(row_of(x.data@, i, cols as int)) by {
                    if i < r {
                        assert(row_of(out@, i, cols as int) == row_of(before, i, cols as int));
                    }
                }
            }
            r = r + 1;
        }
        Tensor::matrix(rows, cols, out)
    }
}

/// Appending a row keeps the rows before it.
pub(crate) proof fn lemma_rows_extend(before: Seq<F32>, row: Seq<F32>, r: int, c: int)
    requires
        r >= 0,
        c >= 0,
        before.len() == r * c,
        row.len() == c,
    ensures
        (before + row).len() == (r + 1) * c,
        row_of(before + row, r, c) == row,
        forall|i: int| 0 <= i < r ==> #[trigger] row_of(before + row, i, c) == row_of(before, i, c),
{
    lemma_row(r, r + 1, c);
    assert(row_of(before + row, r, c) =~= row);
    assert forall|i: int| 0 <= i < r implies #[trigger] row_of(before + row, i, c) == row_of(
        before,
        i,
        c,
    ) by {
        lemma_row(i, r, c);
        assert(row_of(before + row, i, c) =~= row_of(before, i, c));
    }
}

// ---------------------------------------------------------------------------
// Rotary positions
// ---------------------------------------------------------------------------

/// Which channels of a head are rotated together.
#[derive(Clone, Copy, Debug, PartialEq, Eq, Structural)]
pub enum RopeType {
    /// Neighbours: channels `2i` and `2i + 1`.
    Norm,
    /// Halves: channels `i` and `i + half`.
    Neox,
}

/// `s` and `c` are sine and cosine of the angle of pair `i` at position `pos`.
pub open spec fn is_angle<M: Math>(
    m: &M,
    base: F32,
    i: int,
    rope_dim: usize,
    pos: usize,
    s: F32,
    c: F32,
) -> bool {
    exists|f: F32|
        #[trigger] is_inv_freq(m, base, i as usize, rope_dim, f) && is_sin(
            m,
            of_int(pos as int).mul_spec(f),
            s,
        ) && is_cos(m, of_int(pos as int).mul_spec(f), c)
}

/// Channel `p` after rotation by the given sines and cosines.
pub open spec fn rotated(
    x: Seq<F32>,
    sines: Seq<F32>,
    cosines: Seq<F32>,
    head_dim: int,
    rope_dim: int,
    rope_type: RopeType,
    p: int,
) -> F32 {
    let half = rope_dim / 2;
    let h = p / head_dim;
    let d = p % head_dim;
    if d >= rope_dim {
        x[p]
    } else {
        match rope_type {
            RopeType::Norm => {
                let u = h * half + d / 2;
                if d % 2 == 0 {
                    x[p].mul_spec(cosines[u]).sub_spec(x[p + 1].mul_spec(sines[u]))
                } else {
                    x[p - 1].mul_spec(sines[u]).add_spec(x[p].mul_spec(cosines[u]))
                }
            },
            RopeType::Neox => {
                if d < half {
                    let u = h * half + d;
                    x[p].mul_spec(cosines[u]).sub_spec(x[p + half].mul_spec(sines[u]))
                } else {
                    let u = h * half + d - half;
                    x[p - half].mul_spec(sines[u]).add_spec(x[p].mul_spec(cosines[u]))
                }
            },
        }
    }
}

/// `y` is `x` rotated pair by pair with these sines and cosines, one pair of
/// them for each head and each pair of channels.
pub open spec fn rope_via<M: Math>(
    m: &M,
    x: Seq<F32>,
    y: Seq<F32>,
    sines: Seq<F32>,
    cosines: Seq<F32>,
    n_heads: int,
    head_dim: int,
    rope_dim: usize,
    pos: usize,
    base: F32,
    rope_type: RopeType,
) -> bool {
    let half = rope_dim as int / 2;
    &&& sines.len() == n_heads * half
    &&& cosines.len() == n_heads * half
    &&& forall|u: int|
        0 <= u < n_heads * half ==> is_angle(
            m,
            base,
            u % half,
            rope_dim,
            pos,
            #[trigger] sines[u],
            cosines[u],
        )
    &&& y == Seq::new(
        x.len(),
        |p: int| rotated(x, sines, cosines, head_dim, rope_dim as int, rope_type, p),
    )
}

/// `y` is `x` with rotary positions applied at position `pos`.
pub open spec fn is_rope<M: Math>(
    m: &M,
    x: Seq<F32>,
    y: Seq<F32>,
    n_heads: int,
    head_dim: int,
    rope_dim: usize,
    pos: usize,
    base: F32,
    rope_type: RopeType,
) -> bool {
    exists|sines: Seq<F32>, cosines: Seq<F32>|
        rope_via(
            m,
            x,
            y,
            sines,
            cosines,
            n_heads,
            head_dim,
            rope_dim,
            pos,
            base,
            rope_type,
        )
}

/// Applies rotary positions in place to `n_heads` heads at position `pos`. Only
/// the first `rope_dim` channels of each head turn.
pub fn apply_rope<M: Math>(
    m: &M,
    x: &mut Vec<F32>,
    n_heads: usize,
    head_dim: usize,
    rope_dim: usize,
    pos: usize,
    base: F32,
    rope_type: RopeType,
)
    requires
        old(x)@.len() == n_heads * head_dim,
        rope_dim <= head_dim,
        rope_dim % 2 == 0,
    ensures
        final(x)@.len() == old(x)@.len(),
        is_rope(
            m,
            old(x)@,
            final(x)@,
            n_heads as int,
            head_dim as int,
            rope_dim,
            pos,
            base,
            rope_type,
        ),
{
    let (sines, cosines) = rope_angles(m, n_heads, rope_dim, pos, base);
    let out: Vec<F32> = turn(x.as_slice(), &sines, &cosines, n_heads, head_dim, rope_dim, rope_type);
    proof {
        assert(rope_via(
            m,
            old(x)@,
            out@,
            sines@,
            cosines@,
            n_heads as int,
            head_dim as int,
            rope_dim,
            pos,
            base,
            rope_type,
        ));
    }
    *x = out;
}

/// Sines and cosines of the angles at a position, for each head and each pair of
/// channels.
pub open spec fn are_angles<M: Math>(
    m: &M,
    sines: Seq<F32>,
    cosines: Seq<F32>,
    n_heads: int,
    rope_dim: usize,
    pos: usize,
    base: F32,
) -> bool {
    let half = rope_dim as int / 2;
    &&& sines.len() == n_heads * half
    &&& cosines.len() == n_heads * half
    &&& forall|u: int|
        0 <= u < n_heads * half ==> is_angle(
            m,
            base,
            u % half,
            rope_dim,
            pos,
            #[trigger] sines[u],
            cosines[u],
        )
}

/// All channels after rotation.
pub open spec fn turned(
    x: Seq<F32>,
    sines: Seq<F32>,
    cosines: Seq<F32>,
    head_dim: int,
    rope_dim: int,
    rope_type: RopeType,
) -> Seq<F32> {
    Seq::new(x.len(), |p: int| rotated(x, sines, cosines, head_dim, rope_dim, rope_type, p))
}

/// Sines and cosines of the angles at a position.
pub(crate) fn rope_angles<M: Math>(
    m: &M,
    n_heads: usize,
    rope_dim: usize,
    pos: usize,
    base: F32,
) -> (r: (Vec<F32>, Vec<F32>))
    ensures
        are_angles(m, r.0@, r.1@, n_heads as int, rope_dim, pos, base),
{
    let half: usize = rope_dim / 2;
    let mut sines: Vec<F32> = Vec::new();
    let mut cosines: Vec<F32> = Vec::new();
    let at: F32 = F32::from_u64(pos as u64);
    let mut h: usize = 0;
    while h < n_heads
        invariant
            h <= n_heads,
            half == rope_dim as int / 2,
            at == of_int(pos as int),
            sines@.len() == h * half,
            cosines@.len() == h * half,
            forall|u: int|
                0 <= u < h * half ==> is_angle(
                    m,
                    base,
                    u % (half as int),
                    rope_dim,
                    pos,
                    #[trigger] sines@[u],
                    cosines@[u],
                ),
        decreases n_heads - h,
    {
        let mut i: usize = 0;
        while i < half
            invariant
                h < n_heads,
                i <= half,
                half == rope_dim as int / 2,
                at == of_int(pos as int),
                sines@.len() == h * half + i,
                cosines@.len() == h * half + i,
                forall|u: int|
                    0 <= u < h * half + i ==> is_angle(
                        m,
                        base,
                        u % (half as int),
                        rope_dim,
                        pos,
                        #[trigger] sines@[u],
                        cosines@[u],
                    ),
            decreases half - i,
        {
            let f: F32 = m.inv_freq(base, i, rope_dim);
            let theta: F32 = at.mul(f);
            let s: F32 = m.sin(theta);
            let c: F32 = m.cos(theta);
            proof {
                assert(is_inv_freq(m, base, (i as int) as usize, rope_dim, f));
                assert(is_sin(m, of_int(pos as int).mul_spec(f), s));
                assert(is_cos(m, of_int(pos as int).mul_spec(f), c));
                assert(is_angle(m, base, i as int, rope_dim, pos, s, c));
                let u = h * half + i;
                assert(u % (half as int) == i) by (nonlinear_arith)
                    requires
                        u == h * half + i,
                        0 <= i < half,
                        h >= 0,
                ;
            }
            let ghost s0 = sines@;
            let ghost c0 = cosines@;
            sines.push(s);
            cosines.push(c);
            proof {
                assert forall|u: int| 0 <= u < h * half + i + 1 implies is_angle(
                    m,
                    base,
                    u % (half as int),
                    rope_dim,
                    pos,
                    #[trigger] sines@[u],
                    cosines@[u],
                ) by {
                    if u < h * half + i {
                        assert(sines@[u] == s0[u] && cosines@[u] == c0[u]);
                    }
                }
            }
            i = i + 1;
        }
        proof {
            assert((h + 1) * half == h * half + half) by (nonlinear_arith);
        }
        h = h + 1;
    }
    (sines, cosines)
}

/// All channels after rotation.
pub(crate) fn turn(
    x: &[F32],
    sines: &Vec<F32>,
    cosines: &Vec<F32>,
    n_heads: usize,
    head_dim: usize,
    rope_dim: usize,
    rope_type: RopeType,
) -> (out: Vec<F32>)
    requires
        x@.len() == n_heads * head_dim,
        rope_dim <= head_dim,
        rope_dim % 2 == 0,
        sines@.len() == n_heads * (rope_dim as int / 2),
        cosines@.len() == n_heads * (rope_dim as int / 2),
    ensures
        out@ == turned(x@, sines@, cosines@, head_dim as int, rope_dim as int, rope_type),
{
    let total: usize = x.len();
    let half: usize = rope_dim / 2;
    let mut out: Vec<F32> = Vec::with_capacity(total);
    let mut p: usize = 0;
    while p < total
        invariant
            p <= total == x@.len(),
            total == n_heads * head_dim,
            half == rope_dim as int / 2,
            rope_dim <= head_dim,
            rope_dim % 2 == 0,
            sines@.len() == n_heads * half,
            cosines@.len() == n_heads * half,
            out@.len() == p,
            forall|j: int|
                0 <= j < p ==> #[trigger] out@[j] == rotated(
                    x@,
                    sines@,
                    cosines@,
                    head_dim as int,
                    rope_dim as int,
                    rope_type,
                    j,
                ),
        decreases total - p,
    {
        proof {
            assert(head_dim > 0) by (nonlinear_arith)
                requires
                    p < n_heads * head_dim,
                    p >= 0,
                    head_dim >= 0,
                    n_heads >= 0,
            ;
        }
        let h: usize = p / head_dim;
        let d: usize = p % head_dim;
        proof {
            assert(p == h * head_dim + d && h < n_heads && h * head_dim + head_dim <= total)
                by (nonlinear_arith)
                requires
                    h == p as int / head_dim as int,
                    d == p as int % head_dim as int,
                    head_dim > 0,
                    p < n_heads * head_dim,
                    total == n_heads * head_dim,
                    p >= 0,
            ;
            lemma_row(h as int, n_heads as int, half as int);
            lemma_half_of_total(n_heads as int, half as int, total as int, head_dim as int);
        }
        let v: F32 = if d >= rope_dim {
            x[p]
        } else {
            match rope_type {
                RopeType::Norm => {
                    let u: usize = h * half + d / 2;
                    if d % 2 == 0 {
                        x[p].mul(cosines[u]).sub(x[p + 1].mul(sines[u]))
                    } else {
                        x[p - 1].mul(sines[u]).add(x[p].mul(cosines[u]))
                    }
                },
                RopeType::Neox => {
                    if d < half {
                        let u: usize = h * half + d;
                        x[p].mul(cosines[u]).sub(x[p + half].mul(sines[u]))
                    } else {
                        let u: usize = h * half + (d - half);
                        x[p - half].mul(sines[u]).add(x[p].mul(cosines[u]))
                    }
                },
            }
        };
        out.push(v);
        p = p + 1;
    }
    assert(out@ =~= turned(x@, sines@, cosines@, head_dim as int, rope_dim as int, rope_type));
    out
}

proof fn lemma_half_of_total(n: int, half: int, total: int, hd: int)
    requires
        n >= 0,
        0 <= half <= hd,
        total == n * hd,
    ensures
        n * half <= total,
{
    assert(n * half <= n * hd) by (nonlinear_arith)
        requires
            n >= 0,
            half <= hd,
    ;
}


// ---------------------------------------------------------------------------
// Grouped-query attention
// ---------------------------------------------------------------------------

/// Keys and values of one layer, one row of each for every position.
#[derive(Clone, Debug)]
pub struct KvLayer {
    pub k: Vec<F32>,
    pub v: Vec<F32>,
}

impl Default for KvLayer {
    fn default() -> (l: Self)
        ensures
            l.k@.len() == 0,
            l.v@.len() == 0,
    {
        KvLayer { k: Vec::new(), v: Vec::new() }
    }
}

impl KvLayer {
    /// Without positions.
    pub fn new() -> (l: Self)
        ensures
            l.k@.len() == 0,
            l.v@.len() == 0,
    {
        KvLayer { k: Vec::new(), v: Vec::new() }
    }

    /// Forgets all positions.
    pub fn clear(&mut self)
        ensures
            final(self).k@.len() == 0,
            final(self).v@.len() == 0,
    {
        self.k.clear();
        self.v.clear();
    }
}

/// Causal self-attention in which several query heads share one head of keys
/// and values.
#[derive(Clone, Debug)]
pub struct Attention {
    pub wq: Linear,
    pub wk: Linear,
    pub wv: Linear,
    pub wo: Linear,
    pub n_heads: usize,
    pub n_kv_heads: usize,
    pub head_dim: usize,
    pub rope_dim: usize,
    pub rope_base: F32,
    pub rope_type: RopeType,
}

impl Attention {
    /// Whether the head counts and the rotary width are allowed.
    pub open spec fn shape_ok(
        n_heads: usize,
        n_kv_heads: usize,
        head_dim: usize,
        rope_dim: usize,
    ) -> bool {
        &&& n_kv_heads != 0
        &&& n_heads as int % n_kv_heads as int == 0
        &&& rope_dim <= head_dim
        &&& rope_dim % 2 == 0
    }

    /// Refuses head counts and a rotary width that are not allowed.
    pub(crate) fn check_shape(
        n_heads: usize,
        n_kv_heads: usize,
        head_dim: usize,
        rope_dim: usize,
    ) -> (r: Result<()>)
        ensures
            match r {
                Ok(_) => Attention::shape_ok(n_heads, n_kv_heads, head_dim, rope_dim),
                Err(e) => !Attention::shape_ok(n_heads, n_kv_heads, head_dim, rope_dim)
                    && e is DimMismatch,
            },
    {
        if n_kv_heads == 0 || n_heads % n_kv_heads != 0 {
            return Err(
                mismatch("n_heads ", n_heads, " must be a multiple of n_kv_heads ", n_kv_heads),
            );
        }
        if rope_dim > head_dim || rope_dim % 2 != 0 {
            return Err(
                mismatch("rope_dim ", rope_dim, " must be even and at most head_dim ", head_dim),
            );
        }
        Ok(())
    }

    /// Attention with the given projections.
    pub fn new(
        wq: Linear,
        wk: Linear,
        wv: Linear,
        wo: Linear,
        n_heads: usize,
        n_kv_heads: usize,
        head_dim: usize,
        rope_dim: usize,
        rope_base: F32,
        rope_type: RopeType,
    ) -> (r: Result<Self>)
        ensures
            match r {
                Ok(a) => {
                    &&& Attention::shape_ok(n_heads, n_kv_heads, head_dim, rope_dim)
                    &&& a == Attention {
                        wq,
                        wk,
                        wv,
                        wo,
                        n_heads,
                        n_kv_heads,
                        head_dim,
                        rope_dim,
                        rope_base,
                        rope_type,
                    }
                },
                Err(e) => !Attention::shape_ok(n_heads, n_kv_heads, head_dim, rope_dim)
                    && e is DimMismatch,
            },
    {
        match Attention::check_shape(n_heads, n_kv_heads, head_dim, rope_dim) {
            Ok(_) => {},
            Err(e) => return Err(e),
        }
        Ok(
            Attention {
                wq,
                wk,
                wv,
                wo,
                n_heads,
                n_kv_heads,
                head_dim,
                rope_dim,
                rope_base,
                rope_type,
            },
        )
    }

    /// Width of the queries.
    pub open spec fn q_dim(self) -> int {
        self.n_heads * self.head_dim
    }

    /// Width of keys and of values.
    pub open spec fn kv_dim(self) -> int {
        self.n_kv_heads * self.head_dim
    }

    /// The projections fit the heads.
    pub open spec fn fits(self) -> bool {
        &&& Attention::shape_ok(self.n_heads, self.n_kv_heads, self.head_dim, self.rope_dim)
        &&& self.head_dim > 0
        &&& self.wq.fits() && self.wk.fits() && self.wv.fits() && self.wo.fits()
        &&& self.wq.out_f == self.q_dim()
        &&& self.wk.out_f == self.kv_dim()
        &&& self.wv.out_f == self.kv_dim()
        &&& self.wo.in_f == self.q_dim()
        &&& self.wk.in_f == self.wq.in_f
        &&& self.wv.in_f == self.wq.in_f
        &&& self.wo.out_f == self.wq.in_f
    }

    /// Whether the row `x` at position `pos` gives these query, key and value.
    pub open spec fn projects<M: Math>(
        self,
        m: &M,
        x: Seq<F32>,
        pos: usize,
        q: Seq<F32>,
        k: Seq<F32>,
        v: Seq<F32>,
    ) -> bool {
        &&& is_rope(
            m,
            self.wq.image(x),
            q,
            self.n_heads as int,
            self.head_dim as int,
            self.rope_dim,
            pos,
            self.rope_base,
            self.rope_type,
        )
        &&& is_rope(
            m,
            self.wk.image(x),
            k,
            self.n_kv_heads as int,
            self.head_dim as int,
            self.rope_dim,
            pos,
            self.rope_base,
            self.rope_type,
        )
        &&& v == self.wv.image(x)
    }

    /// The head of keys and values that query head `h` uses.
    pub open spec fn kv_head(self, h: int) -> int {
        h / (self.n_heads as int / self.n_kv_heads as int)
    }

    /// Whether query head `h` attends over all of `kc` and `vc`.
    pub open spec fn head_attends<M: Math>(
        self,
        m: &M,
        q: Seq<F32>,
        kc: Seq<F32>,
        vc: Seq<F32>,
        len: int,
        ctx: Seq<F32>,
        h: int,
    ) -> bool {
        let hd = self.head_dim as int;
        let kv0 = self.kv_head(h) * hd;
        exists|w: Seq<F32>|
            #![trigger mix_of(w, vc, kv0, self.kv_dim(), hd)]
            is_softmax(
                m,
                scores_of(
                    q,
                    h * hd,
                    kc,
                    kv0,
                    self.kv_dim(),
                    hd,
                    len,
                    len,
                    head_scale_of(hd),
                ),
                w,
            ) && ctx.subrange(h * hd, h * hd + hd) == mix_of(w, vc, kv0, self.kv_dim(), hd)
    }

    /// Whether all heads attend over all of `kc` and `vc`.
    pub open spec fn attends<M: Math>(
        self,
        m: &M,
        q: Seq<F32>,
        kc: Seq<F32>,
        vc: Seq<F32>,
        ctx: Seq<F32>,
    ) -> bool {
        &&& ctx.len() == self.q_dim()
        &&& forall|h: int|
            0 <= h < self.n_heads ==> #[trigger] self.head_attends(
                m,
                q,
                kc,
                vc,
                kc.len() as int / self.kv_dim(),
                ctx,
                h,
            )
    }

    /// Whether one token with row `x` at position `pos` takes keys and values
    /// from `k0`, `v0` to `k1`, `v1` and gives the row `y`, by way of the given
    /// query, key, value and context.
    pub open spec fn steps_via<M: Math>(
        self,
        m: &M,
        x: Seq<F32>,
        pos: usize,
        k0: Seq<F32>,
        v0: Seq<F32>,
        k1: Seq<F32>,
        v1: Seq<F32>,
        y: Seq<F32>,
        q: Seq<F32>,
        k: Seq<F32>,
        v: Seq<F32>,
        ctx: Seq<F32>,
    ) -> bool {
        &&& self.projects(m, x, pos, q, k, v)
        &&& k1 == k0 + k
        &&& v1 == v0 + v
        &&& self.attends(m, q, k1, v1, ctx)
        &&& y == self.wo.image(ctx)
    }

    /// As `steps_via`, by way of anything.
    pub open spec fn steps<M: Math>(
        self,
        m: &M,
        x: Seq<F32>,
        pos: usize,
        k0: Seq<F32>,
        v0: Seq<F32>,
        k1: Seq<F32>,
        v1: Seq<F32>,
        y: Seq<F32>,
    ) -> bool {
        exists|q: Seq<F32>, k: Seq<F32>, v: Seq<F32>, ctx: Seq<F32>|
            #[trigger] self.steps_via(m, x, pos, k0, v0, k1, v1, y, q, k, v, ctx)
    }

    /// Query, key and value of one row.
    fn project<M: Math>(&self, m: &M, x: &[F32], pos: usize) -> (r: (Vec<F32>, Vec<F32>, Vec<F32>))
        requires
            self.fits(),
            x@.len() == self.wq.in_f,
        ensures
            self.projects(m, x@, pos, r.0@, r.1@, r.2@),
            r.0@.len() == self.q_dim(),
            r.1@.len() == self.kv_dim(),
            r.2@.len() == self.kv_dim(),
    {
        let mut q: Vec<F32> = linear_row(&self.wq, copy_f32(x));
        let mut k: Vec<F32> = linear_row(&self.wk, copy_f32(x));
        let v: Vec<F32> = linear_row(&self.wv, copy_f32(x));
        apply_rope(
            m,
            &mut q,
            self.n_heads,
            self.head_dim,
            self.rope_dim,
            pos,
            self.rope_base,
            self.rope_type,
        );
        apply_rope(
            m,
            &mut k,
            self.n_kv_heads,
            self.head_dim,
            self.rope_dim,
            pos,
            self.rope_base,
            self.rope_type,
        );
        (q, k, v)
    }

    /// Attention of one query over all positions in `kc` and `vc`.
    fn attend<M: Math>(&self, m: &M, q: &[F32], kc: &[F32], vc: &[F32]) -> (ctx: Vec<F32>)
        requires
            self.fits(),
            q@.len() == self.q_dim(),
            kc@.len() == vc@.len(),
            kc@.len() as int % self.kv_dim() == 0,
        ensures
            self.attends(m, q@, kc@, vc@, ctx@),
    {
        let hd: usize = self.head_dim;
        let kv_dim: usize = self.wk.out_f;
        let lq: usize = q.len();
        proof {
            assert(kv_dim > 0) by (nonlinear_arith)
                requires
                    kv_dim == self.n_kv_heads * hd,
                    self.n_kv_heads > 0,
                    hd > 0,
            ;
        }
        let len: usize = kc.len() / kv_dim;
        let group: usize = self.n_heads / self.n_kv_heads;
        let scale: F32 = head_scale(hd);
        proof {
            assert(len * kv_dim == kc@.len()) by (nonlinear_arith)
                requires
                    len == kc@.len() as int / kv_dim as int,
                    kc@.len() as int % kv_dim as int == 0,
                    kv_dim > 0,
            ;
            assert(self.n_heads == self.n_kv_heads * group) by (nonlinear_arith)
                requires
                    group == self.n_heads as int / self.n_kv_heads as int,
                    self.n_heads as int % self.n_kv_heads as int == 0,
                    self.n_kv_heads > 0,
            ;
        }
        let mut ctx: Vec<F32> = Vec::new();
        let mut h: usize = 0;
        while h < self.n_heads
            invariant
                self.fits(),
                h <= self.n_heads,
                hd == self.head_dim,
                kv_dim == self.kv_dim(),
                kv_dim > 0,
                lq == q@.len(),
                q@.len() == self.q_dim(),
                kc@.len() == vc@.len(),
                len * kv_dim == kc@.len(),
                len == kc@.len() as int / self.kv_dim(),
                group == self.n_heads as int / self.n_kv_heads as int,
                self.n_heads == self.n_kv_heads * group,
                scale == head_scale_of(hd as int),
                ctx@.len() == h * hd,
                forall|x: int|
                    0 <= x < h ==> #[trigger] self.head_attends(
                        m,
                        q@,
                        kc@,
                        vc@,
                        len as int,
                        ctx@,
                        x,
                    ),
            decreases self.n_heads - h,
        {
            proof {
                lemma_row(h as int, self.n_heads as int, hd as int);
                assert(group > 0) by (nonlinear_arith)
                    requires
                        h < self.n_heads,
                        self.n_heads == self.n_kv_heads * group,
                        group >= 0,
                        h >= 0,
                ;
            }
            let kvh: usize = h / group;
            proof {
                assert(kvh < self.n_kv_heads) by (nonlinear_arith)
                    requires
                        kvh == h as int / group as int,
                        h < self.n_kv_heads * group,
                        group > 0,
                        h >= 0,
                ;
                lemma_row(kvh as int, self.n_kv_heads as int, hd as int);
                if len > 0 {
                    assert((len - 1) * kv_dim + kv_dim == len * kv_dim) by (nonlinear_arith);
                }
            }
            let kv0: usize = kvh * hd;
            let (w, o) = attend_head(m, q, h * hd, kc, vc, kv0, kv_dim, hd, len, len, scale);
            let ghost before = ctx@;
            append_row(&mut ctx, o.as_slice());
            proof {
                assert((h + 1) * hd == h * hd + hd) by (nonlinear_arith);
                assert forall|x: int| 0 <= x < h + 1 implies #[trigger] self.head_attends(
                    m,
                    q@,
                    kc@,
                    vc@,
                    len as int,
                    ctx@,
                    x,
                ) by {
                    if x < h {
                        lemma_row(x, h as int, hd as int);
                        assert(self.head_attends(m, q@, kc@, vc@, len as int, before, x));
                        assert(ctx@.subrange(x * hd, x * hd + hd) =~= before.subrange(
                            x * hd,
                            x * hd + hd,
                        ));
                    } else {
                        assert(ctx@.subrange(x * hd, x * hd + hd) =~= o@);
                        assert(o@ == mix_of(
                            w@,
                            vc@,
                            self.kv_head(x) * hd,
                            self.kv_dim(),
                            hd as int,
                        ));
                    }
                }
            }
            h = h + 1;
        }
        ctx
    }

    /// One token at position `pos`: its key and value join the cache, its query
    /// attends over all of it.
    pub fn forward_one<M: Math>(&self, m: &M, x: &[F32], pos: usize, cache: &mut KvLayer) -> (r: Result<
        Vec<F32>,
    >)
        requires
            self.fits(),
            old(cache).k@.len() == old(cache).v@.len(),
            old(cache).k@.len() as int % self.kv_dim() == 0,
        ensures
            match r {
                Ok(y) => {
                    &&& x@.len() == self.wq.in_f
                    &&& self.steps(
                        m,
                        x@,
                        pos,
                        old(cache).k@,
                        old(cache).v@,
                        final(cache).k@,
                        final(cache).v@,
                        y@,
                    )
                    &&& y@.len() == self.wq.in_f
                    &&& final(cache).k@.len() == old(cache).k@.len() + self.kv_dim()
                    &&& final(cache).v@.len() == old(cache).v@.len() + self.kv_dim()
                },
                Err(e) => {
                    &&& x@.len() != self.wq.in_f
                    &&& e == (InferError::ShapeMismatch {
                        expected: self.wq.in_f,
                        got: x@.len() as usize,
                    })
                    &&& *final(cache) == *old(cache)
                },
            },
    {
        if x.len() != self.wq.in_f {
            return Err(InferError::ShapeMismatch { expected: self.wq.in_f, got: x.len() });
        }
        let ghost before = *cache;
        let (q, k, v) = self.project(m, x, pos);
        append_row(&mut cache.k, k.as_slice());
        append_row(&mut cache.v, v.as_slice());
        proof {
            lemma_multiple_step(before.k@.len() as int, self.kv_dim(), self.n_kv_heads as int, self.head_dim as int);
        }
        let ctx: Vec<F32> = self.attend(m, q.as_slice(), cache.k.as_slice(), cache.v.as_slice());
        let ghost c = ctx@;
        let y: Vec<F32> = linear_row(&self.wo, ctx);
        proof {
            assert(self.steps_via(
                m,
                x@,
                pos,
                before.k@,
                before.v@,
                cache.k@,
                cache.v@,
                y@,
                q@,
                k@,
                v@,
                c,
            ));
        }
        Ok(y)
    }

    /// Whether the rows of `x` lead to the rows of `y` with these keys and
    /// values: row `t` attends over the positions up to `t`.
    pub open spec fn runs_via<M: Math>(
        self,
        m: &M,
        x: Tensor,
        y: Tensor,
        kc: Seq<F32>,
        vc: Seq<F32>,
    ) -> bool {
        let d = self.kv_dim();
        &&& kc.len() == x.shape@[0] * d
        &&& vc.len() == x.shape@[0] * d
        &&& forall|t: int|
            0 <= t < x.shape@[0] ==> #[trigger] self.run_step(m, x.data@, y.data@, kc, vc, t)
    }

    /// Row `t` of a run is a step from the first `t` positions to one more.
    pub open spec fn run_step<M: Math>(
        self,
        m: &M,
        x: Seq<F32>,
        y: Seq<F32>,
        kc: Seq<F32>,
        vc: Seq<F32>,
        t: int,
    ) -> bool {
        let d = self.kv_dim();
        self.steps(
            m,
            row_of(x, t, self.wq.in_f as int),
            t as usize,
            kc.subrange(0, t * d),
            vc.subrange(0, t * d),
            kc.subrange(0, t * d + d),
            vc.subrange(0, t * d + d),
            row_of(y, t, self.wq.in_f as int),
        )
    }

    /// A whole sequence from position zero: row `t` attends over rows up to `t`.
    pub fn forward_full<M: Math>(&self, m: &M, x: &Tensor) -> (r: Result<Tensor>)
        requires
            self.fits(),
            x.wf(),
        ensures
            match r {
                Ok(y) => {
                    &&& x.is_matrix() && (x.shape@[0] == 0 || x.shape@[1] == self.wq.in_f)
                    &&& y.wf() && y.is_sized(x.shape@[0] as int, x.shape@[1] as int)
                    &&& exists|kc: Seq<F32>, vc: Seq<F32>| self.runs_via(m, *x, y, kc, vc)
                },
                Err(e) => not_matrix(*x, e) || (x.is_matrix() && x.shape@[0] != 0 && x.shape@[1]
                    != self.wq.in_f && e is DimMismatch),
            },
    {
        let (seq, dim) = match x.matrix_dims() {
            Ok(d) => d,
            Err(e) => return Err(e),
        };
        if seq > 0 && dim != self.wq.in_f {
            return Err(mismatch("Linear expects width ", self.wq.in_f, ", got ", dim));
        }
        let total: usize = x.data.len();
        let mut cache: KvLayer = KvLayer::new();
        let mut out: Vec<F32> = Vec::with_capacity(total);
        let mut t: usize = 0;
        proof {
            assert(0 * self.kv_dim() == 0) by (nonlinear_arith);
        }
        while t < seq
            invariant
                self.fits(),
                t <= seq,
                seq > 0 ==> dim == self.wq.in_f,
                total == x.data@.len(),
                x.data@.len() == seq * dim,
                out@.len() == t * dim,
                cache.k@.len() == t * self.kv_dim(),
                cache.v@.len() == t * self.kv_dim(),
                forall|i: int|
                    0 <= i < t ==> #[trigger] self.run_step(
                        m,
                        x.data@,
                        out@,
                        cache.k@,
                        cache.v@,
                        i,
                    ),
            decreases seq - t,
        {
            proof {
                lemma_row(t as int, seq as int, dim as int);
                let d = self.kv_dim();
                assert(d > 0) by (nonlinear_arith)
                    requires
                        d == self.n_kv_heads * self.head_dim,
                        self.n_kv_heads > 0,
                        self.head_dim > 0,
                ;
                assert((t * d) % d == 0) by (nonlinear_arith)
                    requires
                        d > 0,
                ;
            }
            let base: usize = t * dim;
            let ghost k0 = cache.k@;
            let ghost v0 = cache.v@;
            let ghost o0 = out@;
            let row: Vec<F32> = match self.forward_one(
                m,
                slice_subrange(x.data.as_slice(), base, base + dim),
                t,
                &mut cache,
            ) {
                Ok(row) => row,
                Err(e) => return Err(e),
            };
            append_row(&mut out, row.as_slice());
            proof {
                let d = self.kv_dim();
                lemma_rows_extend(o0, row@, t as int, dim as int);
                assert(t * d + d == (t + 1) * d) by (nonlinear_arith);
                assert(cache.k@.subrange(0, k0.len() as int) =~= k0);
                assert(cache.v@.subrange(0, v0.len() as int) =~= v0);
                assert forall|i: int| 0 <= i < t + 1 implies #[trigger] self.run_step(
                    m,
                    x.data@,
                    out@,
                    cache.k@,
                    cache.v@,
                    i,
                ) by {
                    lemma_row(i, t + 1, d);
                    if i < t {
                        lemma_row(i, t as int, d);
                        assert(self.run_step(m, x.data@, o0, k0, v0, i));
                        assert(row_of(out@, i, dim as int) == row_of(o0, i, dim as int));
                        assert(cache.k@.subrange(0, i * d) =~= k0.subrange(0, i * d));
                        assert(cache.v@.subrange(0, i * d) =~= v0.subrange(0, i * d));
                        assert(cache.k@.subrange(0, i * d + d) =~= k0.subrange(0, i * d + d));
                        assert(cache.v@.subrange(0, i * d + d) =~= v0.subrange(0, i * d + d));
                    } else {
                        assert(cache.k@.subrange(0, i * d) =~= k0);
                        assert(cache.v@.subrange(0, i * d) =~= v0);
                        assert(cache.k@.subrange(0, i * d + d) =~= cache.k@);
                        assert(cache.v@.subrange(0, i * d + d) =~= cache.v@);
                    }
                }
            }
            t = t + 1;
        }
        match Tensor::matrix(seq, dim, out) {
            Ok(y) => {
                proof {
                    assert(self.runs_via(m, *x, y, cache.k@, cache.v@));
                }
                Ok(y)
            },
            Err(e) => Err(e),
        }
    }
}

proof fn lemma_multiple_step(n: int, d: int, a: int, b: int)
    requires
        d == a * b,
        a > 0,
        b > 0,
        n >= 0,
        n % d == 0,
    ensures
        d > 0,
        (n + d) % d == 0,
{
    assert(d > 0) by (nonlinear_arith)
        requires
            d == a * b,
            a > 0,
            b > 0,
    ;
    assert((n + d) % d == 0) by (nonlinear_arith)
        requires
            n % d == 0,
            d > 0,
    ;
}


// ---------------------------------------------------------------------------
// SwiGLU feed-forward
// ---------------------------------------------------------------------------

/// `down(silu(gate(x)) * up(x))`.
#[derive(Clone, Debug)]
pub struct FeedForward {
    pub gate: Linear,
    pub up: Linear,
    pub down: Linear,
}

/// `v` is `silu(g) * u`.
pub open spec fn is_gated<M: Math>(m: &M, g: F32, u: F32, v: F32) -> bool {
    exists|s: F32| #[trigger] is_silu(m, g, s) && v == s.mul_spec(u)
}

impl FeedForward {
    /// A block of the three projections.
    pub fn new(gate: Linear, up: Linear, down: Linear) -> (f: Self)
        ensures
            f == (FeedForward { gate, up, down }),
    {
        FeedForward { gate, up, down }
    }

    /// The projections fit together.
    pub open spec fn fits(self) -> bool {
        &&& self.gate.fits() && self.up.fits() && self.down.fits()
        &&& self.up.in_f == self.gate.in_f
        &&& self.up.out_f == self.gate.out_f
        &&& self.down.in_f == self.gate.out_f
    }

    /// Whether the row `x` leads by way of `h` to the row `y`.
    pub open spec fn gates_via<M: Math>(
        self,
        m: &M,
        x: Seq<F32>,
        h: Seq<F32>,
        y: Seq<F32>,
    ) -> bool {
        &&& h.len() == self.gate.out_f
        &&& forall|i: int|
            0 <= i < h.len() ==> is_gated(
                m,
                self.gate.image(x)[i],
                self.up.image(x)[i],
                #[trigger] h[i],
            )
        &&& y == self.down.image(h)
    }

    /// Whether the row `x` leads to the row `y`.
    pub open spec fn gates<M: Math>(self, m: &M, x: Seq<F32>, y: Seq<F32>) -> bool {
        exists|h: Seq<F32>| #[trigger] self.gates_via(m, x, h, y)
    }

    /// Applies the block to every row.
    pub fn forward<M: Math>(&self, m: &M, x: &Tensor) -> (r: Result<Tensor>)
        requires
            self.fits(),
            x.wf(),
        ensures
            match r {
                Ok(t) => {
                    &&& x.is_matrix() && x.shape@[1] == self.gate.in_f
                    &&& t.wf() && t.is_sized(x.shape@[0] as int, self.down.out_f as int)
                    &&& forall|i: int|
                        0 <= i < x.shape@[0] ==> self.gates(
                            m,
                            #[trigger] row_of(x.data@, i, self.gate.in_f as int),
                            row_of(t.data@, i, self.down.out_f as int),
                        )
                },
                Err(e) => not_matrix(*x, e) || (x.is_matrix() && e is DimMismatch && {
                    ||| x.shape@[1] != self.gate.in_f
                    ||| x.shape@[0] * self.gate.out_f > usize::MAX
                    ||| x.shape@[0] * self.down.out_f > usize::MAX
                }),
            },
    {
        let g: Tensor = match self.gate.forward(m, x) {
            Ok(t) => t,
            Err(e) => return Err(e),
        };
        let u: Tensor = match self.up.forward(m, x) {
            Ok(t) => t,
            Err(e) => return Err(e),
        };
        let rows: usize = x.shape[0];
        let ffn: usize = self.gate.out_f;
        let total: usize = g.data.len();
        let mut h: Vec<F32> = Vec::with_capacity(total);
        let mut i: usize = 0;
        while i < total
            invariant
                i <= total == g.data@.len(),
                u.data@.len() == g.data@.len(),
                h@.len() == i,
                forall|j: int|
                    0 <= j < i ==> is_gated(m, g.data@[j], u.data@[j], #[trigger] h@[j]),
            decreases total - i,
        {
            let s: F32 = silu(m, g.data[i]);
            let v: F32 = s.mul(u.data[i]);
            assert(is_gated(m, g.data@[i as int], u.data@[i as int], v));
            h.push(v);
            i = i + 1;
        }
        let ghost hs = h@;
        let ht: Tensor = match Tensor::matrix(rows, ffn, h) {
            Ok(t) => t,
            Err(e) => return Err(e),
        };
        let r: Result<Tensor> = self.down.forward(m, &ht);
        proof {
            if r is Ok {
                let t = r->Ok_0;
                assert forall|i: int| 0 <= i < rows implies self.gates(
                    m,
                    #[trigger] row_of(x.data@, i, self.gate.in_f as int),
                    row_of(t.data@, i, self.down.out_f as int),
                ) by {
                    let xr = row_of(x.data@, i, self.gate.in_f as int);
                    lemma_image_rows(self.gate, *x, g, i);
                    lemma_image_rows(self.up, *x, u, i);
                    lemma_image_rows(self.down, ht, t, i);
                    lemma_row(i, rows as int, ffn as int);
                    let hr = row_of(hs, i, ffn as int);
                    assert forall|j: int| 0 <= j < hr.len() implies is_gated(
                        m,
                        self.gate.image(xr)[j],
                        self.up.image(xr)[j],
                        #[trigger] hr[j],
                    ) by {
                        let p = i * ffn + j;
                        assert(hr[j] == hs[p]);
                        assert(is_gated(m, g.data@[p], u.data@[p], hs[p]));
                        assert(row_of(g.data@, i, ffn as int)[j] == g.data@[p]);
                        assert(row_of(u.data@, i, ffn as int)[j] == u.data@[p]);
                    }
                    assert(self.gates_via(m, xr, hr, row_of(t.data@, i, self.down.out_f as int)));
                }
            }
        }
        r
    }
}

// ---------------------------------------------------------------------------
// Decoder block
// ---------------------------------------------------------------------------

/// `h = x + attn(norm(x))`, then `h + ffn(norm(h))`.
#[derive(Clone, Debug)]
pub struct LlamaBlock {
    pub attn_norm: RmsNorm,
    pub attn: Attention,
    pub ffn_norm: RmsNorm,
    pub ffn: FeedForward,
}

impl LlamaBlock {
    /// Width of the block.
    pub open spec fn dim(self) -> int {
        self.attn.wq.in_f as int
    }

    /// The parts fit together.
    pub open spec fn fits(self) -> bool {
        &&& self.attn.fits()
        &&& self.ffn.fits()
        &&& self.attn_norm.weight@.len() == self.dim()
        &&& self.ffn_norm.weight@.len() == self.dim()
        &&& self.ffn.gate.in_f == self.dim()
        &&& self.ffn.down.out_f == self.dim()
    }

    /// Whether attention output `a` and feed-forward output `f` lead from the
    /// row `x` to the row `y`.
    pub open spec fn steps_via<M: Math>(
        self,
        m: &M,
        x: Seq<F32>,
        pos: usize,
        k0: Seq<F32>,
        v0: Seq<F32>,
        k1: Seq<F32>,
        v1: Seq<F32>,
        y: Seq<F32>,
        a: Seq<F32>,
        f: Seq<F32>,
    ) -> bool {
        &&& self.attn.steps(m, self.attn_norm.image(x), pos, k0, v0, k1, v1, a)
        &&& self.ffn.gates(m, self.ffn_norm.image(add_rows(x, a)), f)
        &&& y == add_rows(add_rows(x, a), f)
    }

    /// Whether one token with row `x` at position `pos` takes keys and values
    /// from `k0`, `v0` to `k1`, `v1` and gives the row `y`.
    pub open spec fn steps<M: Math>(
        self,
        m: &M,
        x: Seq<F32>,
        pos: usize,
        k0: Seq<F32>,
        v0: Seq<F32>,
        k1: Seq<F32>,
        v1: Seq<F32>,
        y: Seq<F32>,
    ) -> bool {
        exists|a: Seq<F32>, f: Seq<F32>|
            #[trigger] self.steps_via(m, x, pos, k0, v0, k1, v1, y, a, f)
    }

    /// One token at position `pos`, with its key and value added to the cache. A
    /// row that is too long is refused.
    pub fn forward_one<M: Math>(&self, m: &M, x: &[F32], pos: usize, cache: &mut KvLayer) -> (r: Result<
        Vec<F32>,
    >)
        requires
            self.fits(),
            x@.len() >= self.dim(),
            old(cache).k@.len() == old(cache).v@.len(),
            old(cache).k@.len() as int % self.attn.kv_dim() == 0,
        ensures
            match r {
                Ok(y) => {
                    &&& x@.len() == self.dim()
                    &&& y@.len() == self.dim()
                    &&& self.steps(
                        m,
                        x@,
                        pos,
                        old(cache).k@,
                        old(cache).v@,
                        final(cache).k@,
                        final(cache).v@,
                        y@,
                    )
                    &&& final(cache).k@.len() == old(cache).k@.len() + self.attn.kv_dim()
                    &&& final(cache).v@.len() == old(cache).v@.len() + self.attn.kv_dim()
                },
                Err(e) => {
                    &&& x@.len() > self.dim()
                    &&& e == (InferError::ShapeMismatch {
                        expected: self.attn.wq.in_f,
                        got: x@.len() as usize,
                    })
                    &&& *final(cache) == *old(cache)
                },
            },
    {
        if x.len() != self.attn.wq.in_f {
            return Err(InferError::ShapeMismatch { expected: self.attn.wq.in_f, got: x.len() });
        }
        let ghost before = *cache;
        let normed: Vec<F32> = self.attn_norm.row(x);
        let a: Vec<F32> = match self.attn.forward_one(m, normed.as_slice(), pos, cache) {
            Ok(a) => a,
            Err(e) => return Err(e),
        };
        let h: Vec<F32> = add_rows_exec(x, a.as_slice());
        let normed2: Vec<F32> = self.ffn_norm.row(h.as_slice());
        let n2: Tensor = match Tensor::row(normed2) {
            Ok(t) => t,
            Err(e) => return Err(e),
        };
        proof {
            let g = self.ffn.gate.out_f as int;
            let d = self.ffn.down.out_f as int;
            assert(1 * g == g) by (nonlinear_arith);
            assert(1 * d == d) by (nonlinear_arith);
        }
        let f: Tensor = match self.ffn.forward(m, &n2) {
            Ok(t) => t,
            Err(e) => return Err(e),
        };
        let y: Vec<F32> = add_rows_exec(h.as_slice(), f.data.as_slice());
        proof {
            let d = self.dim();
            assert(0 * d == 0) by (nonlinear_arith);
            assert(row_of(n2.data@, 0, d) =~= n2.data@);
            assert(row_of(f.data@, 0, d) =~= f.data@);
            assert(self.steps_via(
                m,
                x@,
                pos,
                before.k@,
                before.v@,
                cache.k@,
                cache.v@,
                y@,
                a@,
                f.data@,
            ));
        }
        Ok(y)
    }

    /// Row `t` of a run is a step from the first `t` positions to one more.
    pub open spec fn run_step<M: Math>(
        self,
        m: &M,
        x: Seq<F32>,
        y: Seq<F32>,
        kc: Seq<F32>,
        vc: Seq<F32>,
        t: int,
    ) -> bool {
        let d = self.attn.kv_dim();
        self.steps(
            m,
            row_of(x, t, self.dim()),
            t as usize,
            kc.subrange(0, t * d),
            vc.subrange(0, t * d),
            kc.subrange(0, t * d + d),
            vc.subrange(0, t * d + d),
            row_of(y, t, self.dim()),
        )
    }

    /// Whether the rows of `x` lead to the rows of `y` with these keys and
    /// values.
    pub open spec fn runs_via<M: Math>(
        self,
        m: &M,
        x: Seq<F32>,
        y: Seq<F32>,
        n: int,
        kc: Seq<F32>,
        vc: Seq<F32>,
    ) -> bool {
        &&& kc.len() == n * self.attn.kv_dim()
        &&& vc.len() == n * self.attn.kv_dim()
        &&& forall|t: int| 0 <= t < n ==> #[trigger] self.run_step(m, x, y, kc, vc, t)
    }

    /// A whole sequence from position zero.
    pub fn forward_full<M: Math>(&self, m: &M, x: &Tensor) -> (r: Result<Tensor>)
        requires
            self.fits(),
            x.wf(),
        ensures
            match r {
                Ok(y) => {
                    &&& x.is_matrix() && x.shape@[1] == self.dim()
                    &&& y.wf() && y.is_sized(x.shape@[0] as int, self.dim())
                    &&& exists|kc: Seq<F32>, vc: Seq<F32>|
                        #[trigger] self.runs_via(m, x.data@, y.data@, x.shape@[0] as int, kc, vc)
                },
                Err(e) => not_matrix(*x, e) || (x.is_matrix() && e is DimMismatch && {
                    ||| x.shape@[1] != self.dim()
                    ||| x.shape@[0] * self.ffn.gate.out_f > usize::MAX
                }),
            },
    {
        let (seq, dim) = match x.matrix_dims() {
            Ok(d) => d,
            Err(e) => return Err(e),
        };
        let held: usize = x.data.len();
        let n1: Tensor = match self.attn_norm.forward(x) {
            Ok(t) => t,
            Err(e) => return Err(e),
        };
        let a: Tensor = match self.attn.forward_full(m, &n1) {
            Ok(t) => t,
            Err(e) => return Err(e),
        };
        let hv: Vec<F32> = add_rows_exec(x.data.as_slice(), a.data.as_slice());
        let ghost hs = hv@;
        let h: Tensor = match Tensor::matrix(seq, dim, hv) {
            Ok(t) => t,
            Err(e) => return Err(e),
        };
        let n2: Tensor = match self.ffn_norm.forward(&h) {
            Ok(t) => t,
            Err(e) => return Err(e),
        };
        let f: Tensor = match self.ffn.forward(m, &n2) {
            Ok(t) => t,
            Err(e) => return Err(e),
        };
        let yv: Vec<F32> = add_rows_exec(h.data.as_slice(), f.data.as_slice());
        let ghost ys = yv@;
        let y: Tensor = match Tensor::matrix(seq, dim, yv) {
            Ok(t) => t,
            Err(e) => return Err(e),
        };
        proof {
            let d = self.attn.kv_dim();
            let c = self.dim();
            let (kc, vc) = choose|kc: Seq<F32>, vc: Seq<F32>| self.attn.runs_via(m, n1, a, kc, vc);
            assert forall|t: int| 0 <= t < seq implies #[trigger] self.run_step(
                m,
                x.data@,
                y.data@,
                kc,
                vc,
                t,
            ) by {
                lemma_row(t, seq as int, c);
                assert(self.attn.run_step(m, n1.data@, a.data@, kc, vc, t));
                let xr = row_of(x.data@, t, c);
                let ar = row_of(a.data@, t, c);
                let fr = row_of(f.data@, t, c);
                assert(row_of(n1.data@, t, c) == self.attn_norm.image(xr));
                assert(row_of(h.data@, t, c) =~= add_rows(xr, ar));
                assert(row_of(n2.data@, t, c) == self.ffn_norm.image(row_of(h.data@, t, c)));
                assert(row_of(y.data@, t, c) =~= add_rows(add_rows(xr, ar), fr));
                assert(self.steps_via(
                    m,
                    xr,
                    t as usize,
                    kc.subrange(0, t * d),
                    vc.subrange(0, t * d),
                    kc.subrange(0, t * d + d),
                    vc.subrange(0, t * d + d),
                    row_of(y.data@, t, c),
                    ar,
                    fr,
                ));
            }
            assert(self.runs_via(m, x.data@, y.data@, seq as int, kc, vc));
        }
        Ok(y)
    }
}

} // verus!
