//! Causal transformer block, over whole sequences or token by token with a
//! cache of keys and values.
use crate::attention::{attend_head, head_scale, head_scale_of, mix_of, scores_of};
use crate::error::{InferError, Result};
use crate::float::F32;
use crate::index::lemma_row;
use crate::layer::{Forward, Layer, LayerNorm, Linear};
use crate::math::Math;
use crate::ops::{append_row, is_softmax, mismatch, not_matrix};
use crate::activation::relu_of;
use crate::tensor::Tensor;
use crate::text::{dec, push_dec};
use vstd::prelude::*;
use vstd::slice::slice_subrange;

verus! {

/// Keys and values of the positions seen so far, for one block.
#[derive(Clone, Debug)]
pub struct KvCache {
    pub k: Vec<F32>,
    pub v: Vec<F32>,
    pub count: usize,
    pub limit: usize,
    pub width: usize,
}

impl KvCache {
    /// One row of keys and one of values for each position, and no more
    /// positions than the limit.
    pub open spec fn wf(self) -> bool {
        &&& self.k@.len() == self.count * self.width
        &&& self.v@.len() == self.count * self.width
        &&& self.count <= self.limit
    }

    /// An empty cache for at most `capacity` positions of width `dim`.
    pub fn new(capacity: usize, dim: usize) -> (c: Self)
        ensures
            c.wf(),
            c.count == 0,
            c.limit == capacity,
            c.width == dim,
    {
        proof {
            assert(0 * dim == 0) by (nonlinear_arith);
        }
        KvCache { k: Vec::new(), v: Vec::new(), count: 0, limit: capacity, width: dim }
    }

    /// Number of positions held.
    pub fn len(&self) -> (n: usize)
        ensures
            n == self.count,
    {
        self.count
    }

    /// Whether no position is held.
    pub fn is_empty(&self) -> (b: bool)
        ensures
            b == (self.count == 0),
    {
        self.count == 0
    }

    /// Whether no further position fits.
    pub fn is_full(&self) -> (b: bool)
        ensures
            b == (self.count >= self.limit),
    {
        self.count >= self.limit
    }

    /// The most positions the cache holds.
    pub fn capacity(&self) -> (n: usize)
        ensures
            n == self.limit,
    {
        self.limit
    }

    /// Forgets all positions.
    pub fn clear(&mut self)
        ensures
            final(self).wf(),
            final(self).count == 0,
            final(self).limit == old(self).limit,
            final(self).width == old(self).width,
    {
        self.k.clear();
        self.v.clear();
        self.count = 0;
        proof {
            assert(0 * self.width == 0) by (nonlinear_arith);
        }
    }
}

/// Layer norm, causal multi-head self-attention, residual; layer norm,
/// feed-forward with ReLU, residual.
#[derive(Clone, Debug)]
pub struct TransformerBlock {
    pub ln1: LayerNorm,
    pub q_proj: Linear,
    pub k_proj: Linear,
    pub v_proj: Linear,
    pub out_proj: Linear,
    pub ln2: LayerNorm,
    pub ffn1: Linear,
    pub ffn2: Linear,
    pub context: usize,
    pub heads: usize,
    pub width: usize,
}

/// The tensors between input and output of a block.
pub struct BlockTrace {
    pub norm1: Tensor,
    pub q: Tensor,
    pub k: Tensor,
    pub v: Tensor,
    /// Attention weights.
    pub weights: Vec<F32>,
    /// The heads' outputs, side by side.
    pub mixed: Tensor,
    pub projected: Tensor,
    pub mid: Tensor,
    pub norm2: Tensor,
    pub hidden: Tensor,
    pub active: Tensor,
    pub widened: Tensor,
}

/// `t` is the element-wise sum of `a` and `b`.
pub open spec fn is_sum(a: Tensor, b: Tensor, t: Tensor) -> bool {
    &&& a.shape@ == b.shape@
    &&& t.shape@ == a.shape@
    &&& t.data@.len() == a.data@.len()
    &&& forall|i: int|
        0 <= i < a.data@.len() ==> #[trigger] t.data@[i] == a.data@[i].add_spec(b.data@[i])
}

/// `t` is `a` with negative elements replaced by zero.
pub open spec fn is_relu(a: Tensor, t: Tensor) -> bool {
    &&& t.shape@ == a.shape@
    &&& t.data@.len() == a.data@.len()
    &&& forall|i: int| 0 <= i < a.data@.len() ==> #[trigger] t.data@[i] == relu_of(a.data@[i])
}

/// The part of row `r` that belongs to head `h`.
pub open spec fn head_part(data: Seq<F32>, r: int, h: int, c: int, hd: int) -> Seq<F32> {
    data.subrange(r * c + h * hd, r * c + h * hd + hd)
}

impl TransformerBlock {
    /// The size of one head.
    pub open spec fn head_dim(self) -> int {
        self.width as int / self.heads as int
    }

    /// The parts fit together.
    pub open spec fn fits(self) -> bool {
        &&& self.context > 0
        &&& self.heads > 0
        &&& self.width as int % self.heads as int == 0
        &&& self.ln1.wf() && self.ln1.width == self.width
        &&& self.ln2.wf() && self.ln2.width == self.width
        &&& self.q_proj.fits() && self.q_proj.in_f == self.width && self.q_proj.out_f == self.width
        &&& self.k_proj.fits() && self.k_proj.in_f == self.width && self.k_proj.out_f == self.width
        &&& self.v_proj.fits() && self.v_proj.in_f == self.width && self.v_proj.out_f == self.width
        &&& self.out_proj.fits() && self.out_proj.in_f == self.width && self.out_proj.out_f
            == self.width
        &&& self.ffn1.fits() && self.ffn1.in_f == self.width
        &&& self.ffn2.fits() && self.ffn2.in_f == self.ffn1.out_f && self.ffn2.out_f == self.width
    }

    /// A block from its parts.
    pub fn from_parts(
        context_len: usize,
        num_heads: usize,
        embedding_dim: usize,
        ln1: LayerNorm,
        q_proj: Linear,
        k_proj: Linear,
        v_proj: Linear,
        out_proj: Linear,
        ln2: LayerNorm,
        ffn1: Linear,
        ffn2: Linear,
    ) -> (r: Result<Self>)
        requires
            ln1.wf(),
            ln2.wf(),
            q_proj.fits(),
            k_proj.fits(),
            v_proj.fits(),
            out_proj.fits(),
            ffn1.fits(),
            ffn2.fits(),
        ensures
            match r {
                Ok(b) => {
                    &&& b.fits()
                    &&& b == TransformerBlock {
                        ln1,
                        q_proj,
                        k_proj,
                        v_proj,
                        out_proj,
                        ln2,
                        ffn1,
                        ffn2,
                        context: context_len,
                        heads: num_heads,
                        width: embedding_dim,
                    }
                },
                Err(e) => {
                    &&& e is DimMismatch
                    &&& !(TransformerBlock {
                        ln1,
                        q_proj,
                        k_proj,
                        v_proj,
                        out_proj,
                        ln2,
                        ffn1,
                        ffn2,
                        context: context_len,
                        heads: num_heads,
                        width: embedding_dim,
                    }).fits()
                },
            },
    {
        if context_len == 0 {
            return Err(InferError::DimMismatch("context_len must be > 0".to_owned()));
        }
        if num_heads == 0 || embedding_dim % num_heads != 0 {
            return Err(
                mismatch(
                    "embedding_dim ",
                    embedding_dim,
                    " must be divisible by num_heads ",
                    num_heads,
                ),
            );
        }
        if ln1.width != embedding_dim || ln2.width != embedding_dim {
            return Err(mismatch("layer norm widths ", ln1.width, " and ", ln2.width));
        }
        if q_proj.in_f != embedding_dim || q_proj.out_f != embedding_dim {
            return Err(mismatch("q_proj is ", q_proj.in_f, " to ", q_proj.out_f));
        }
        if k_proj.in_f != embedding_dim || k_proj.out_f != embedding_dim {
            return Err(mismatch("k_proj is ", k_proj.in_f, " to ", k_proj.out_f));
        }
        if v_proj.in_f != embedding_dim || v_proj.out_f != embedding_dim {
            return Err(mismatch("v_proj is ", v_proj.in_f, " to ", v_proj.out_f));
        }
        if out_proj.in_f != embedding_dim || out_proj.out_f != embedding_dim {
            return Err(mismatch("out_proj is ", out_proj.in_f, " to ", out_proj.out_f));
        }
        if ffn1.in_f != embedding_dim {
            return Err(mismatch("ffn1 takes ", ffn1.in_f, ", not ", embedding_dim));
        }
        if ffn2.in_f != ffn1.out_f || ffn2.out_f != embedding_dim {
            return Err(mismatch("ffn2 is ", ffn2.in_f, " to ", ffn2.out_f));
        }
        Ok(
            TransformerBlock {
                ln1,
                q_proj,
                k_proj,
                v_proj,
                out_proj,
                ln2,
                ffn1,
                ffn2,
                context: context_len,
                heads: num_heads,
                width: embedding_dim,
            },
        )
    }

    /// A full-precision block from its parameters; the width of the
    /// feed-forward part is the length of its first bias.
    pub fn new(
        context_len: usize,
        num_heads: usize,
        embedding_dim: usize,
        ln1_g: Vec<F32>,
        ln1_b: Vec<F32>,
        q_w: Vec<F32>,
        q_b: Vec<F32>,
        k_w: Vec<F32>,
        k_b: Vec<F32>,
        v_w: Vec<F32>,
        v_b: Vec<F32>,
        out_w: Vec<F32>,
        out_b: Vec<F32>,
        ln2_g: Vec<F32>,
        ln2_b: Vec<F32>,
        ffn1_w: Vec<F32>,
        ffn1_b: Vec<F32>,
        ffn2_w: Vec<F32>,
        ffn2_b: Vec<F32>,
    ) -> (r: Result<Self>)
        ensures
            match r {
                Ok(b) => {
                    &&& b.fits()
                    &&& b.context == context_len && b.heads == num_heads && b.width
                        == embedding_dim
                    &&& b.ln1.gamma.data@ == ln1_g@ && b.ln1.beta.data@ == ln1_b@
                    &&& b.q_proj.weight.data@ == q_w@ && b.q_proj.bias.data@ == q_b@
                    &&& b.k_proj.weight.data@ == k_w@ && b.k_proj.bias.data@ == k_b@
                    &&& b.v_proj.weight.data@ == v_w@ && b.v_proj.bias.data@ == v_b@
                    &&& b.out_proj.weight.data@ == out_w@ && b.out_proj.bias.data@ == out_b@
                    &&& b.ln2.gamma.data@ == ln2_g@ && b.ln2.beta.data@ == ln2_b@
                    &&& b.ffn1.weight.data@ == ffn1_w@ && b.ffn1.bias.data@ == ffn1_b@
                    &&& b.ffn2.weight.data@ == ffn2_w@ && b.ffn2.bias.data@ == ffn2_b@
                    &&& b.q_proj.quant is None && b.k_proj.quant is None && b.v_proj.quant is None
                    &&& b.out_proj.quant is None && b.ffn1.quant is None && b.ffn2.quant is None
                },
                Err(e) => (e is DimMismatch || e is ShapeMismatch) && {
                    ||| context_len == 0
                    ||| num_heads == 0 || embedding_dim as int % num_heads as int != 0
                    ||| ln1_g@.len() != embedding_dim || ln1_b@.len() != embedding_dim
                    ||| ln2_g@.len() != embedding_dim || ln2_b@.len() != embedding_dim
                    ||| q_w@.len() != embedding_dim * embedding_dim || q_b@.len() != embedding_dim
                    ||| k_w@.len() != embedding_dim * embedding_dim || k_b@.len() != embedding_dim
                    ||| v_w@.len() != embedding_dim * embedding_dim || v_b@.len() != embedding_dim
                    ||| out_w@.len() != embedding_dim * embedding_dim || out_b@.len()
                        != embedding_dim
                    ||| ffn1_w@.len() != embedding_dim * ffn1_b@.len()
                    ||| ffn2_w@.len() != ffn1_b@.len() * embedding_dim || ffn2_b@.len()
                        != embedding_dim
                },
            },
    {
        if context_len == 0 {
            return Err(InferError::DimMismatch("context_len must be > 0".to_owned()));
        }
        if num_heads == 0 || embedding_dim % num_heads != 0 {
            return Err(
                mismatch(
                    "embedding_dim ",
                    embedding_dim,
                    " must be divisible by num_heads ",
                    num_heads,
                ),
            );
        }
        let ln1: LayerNorm = match LayerNorm::new(embedding_dim, ln1_g, ln1_b) {
            Ok(l) => l,
            Err(e) => return Err(e),
        };
        let q_proj: Linear = match Linear::new(embedding_dim, embedding_dim, q_w, q_b) {
            Ok(l) => l,
            Err(e) => return Err(e),
        };
        let k_proj: Linear = match Linear::new(embedding_dim, embedding_dim, k_w, k_b) {
            Ok(l) => l,
            Err(e) => return Err(e),
        };
        let v_proj: Linear = match Linear::new(embedding_dim, embedding_dim, v_w, v_b) {
            Ok(l) => l,
            Err(e) => return Err(e),
        };
        let out_proj: Linear = match Linear::new(embedding_dim, embedding_dim, out_w, out_b) {
            Ok(l) => l,
            Err(e) => return Err(e),
        };
        let ln2: LayerNorm = match LayerNorm::new(embedding_dim, ln2_g, ln2_b) {
            Ok(l) => l,
            Err(e) => return Err(e),
        };
        let hidden_dim: usize = ffn1_b.len();
        let ffn1: Linear = match Linear::new(embedding_dim, hidden_dim, ffn1_w, ffn1_b) {
            Ok(l) => l,
            Err(e) => return Err(e),
        };
        let ffn2: Linear = match Linear::new(hidden_dim, embedding_dim, ffn2_w, ffn2_b) {
            Ok(l) => l,
            Err(e) => return Err(e),
        };
        TransformerBlock::from_parts(
            context_len,
            num_heads,
            embedding_dim,
            ln1,
            q_proj,
            k_proj,
            v_proj,
            out_proj,
            ln2,
            ffn1,
            ffn2,
        )
    }

    /// Positions in one sequence.
    pub fn context_len(&self) -> (n: usize)
        ensures
            n == self.context,
    {
        self.context
    }

    /// Number of attention heads.
    pub fn num_heads(&self) -> (n: usize)
        ensures
            n == self.heads,
    {
        self.heads
    }

    /// Width of the block.
    pub fn embedding_dim(&self) -> (n: usize)
        ensures
            n == self.width,
    {
        self.width
    }

    /// Width of the feed-forward part.
    pub fn hidden_dim(&self) -> (n: usize)
        ensures
            n == self.ffn1.out_f,
    {
        self.ffn1.out_features()
    }

    /// Whether `tr.mixed` goes through projection, residual, norm and
    /// feed-forward to `t`.
    pub open spec fn finishes(self, x: Tensor, tr: BlockTrace, t: Tensor) -> bool {
        &&& self.out_proj.maps(tr.mixed, tr.projected)
        &&& is_sum(x, tr.projected, tr.mid)
        &&& self.ln2.maps(tr.mid, tr.norm2)
        &&& self.ffn1.maps(tr.norm2, tr.hidden)
        &&& is_relu(tr.hidden, tr.active)
        &&& self.ffn2.maps(tr.active, tr.widened)
        &&& is_sum(tr.mid, tr.widened, t)
    }

    /// Whether norm and projections of `x` are those in the trace.
    pub open spec fn starts(self, x: Tensor, tr: BlockTrace) -> bool {
        &&& self.ln1.maps(x, tr.norm1)
        &&& self.q_proj.maps(tr.norm1, tr.q)
        &&& self.k_proj.maps(tr.norm1, tr.k)
        &&& self.v_proj.maps(tr.norm1, tr.v)
    }

    /// Number of the attention row of sequence row `r`, head `h`: sequences
    /// first, then heads, then positions.
    pub open spec fn unit(self, r: int, h: int) -> int {
        (r / (self.context as int) * self.heads + h) * self.context + r % (self.context as int)
    }

    /// Whether row `r`, head `h` attends causally within its own sequence.
    pub open spec fn attends<M: Math>(self, m: &M, tr: BlockTrace, r: int, h: int) -> bool {
        let t = self.context as int;
        let c = self.width as int;
        let hd = self.head_dim();
        let first = (r / t) * t * c + h * hd;
        let w = tr.weights@.subrange(self.unit(r, h) * t, self.unit(r, h) * t + t);
        &&& is_softmax(
            m,
            scores_of(
                tr.q.data@,
                r * c + h * hd,
                tr.k.data@,
                first,
                c,
                hd,
                t,
                r % t + 1,
                head_scale_of(hd),
            ),
            w,
        )
        &&& head_part(tr.mixed.data@, r, h, c, hd) == mix_of(w, tr.v.data@, first, c, hd)
    }

    /// Whether `tr` leads from `x` to `t` with attention inside each sequence.
    pub open spec fn explains<M: Math>(self, m: &M, x: Tensor, tr: BlockTrace, t: Tensor) -> bool {
        &&& x.is_matrix()
        &&& x.shape@[1] == self.width
        &&& x.shape@[0] as int % self.context as int == 0
        &&& self.starts(x, tr)
        &&& tr.weights@.len() == x.shape@[0] * self.heads * self.context
        &&& tr.mixed.is_sized(x.shape@[0] as int, self.width as int)
        &&& forall|r: int, h: int|
            0 <= r < x.shape@[0] && 0 <= h < self.heads ==> #[trigger] self.attends(m, tr, r, h)
        &&& self.finishes(x, tr, t)
        &&& t.is_sized(x.shape@[0] as int, self.width as int)
    }

    /// Whether head `h` attends over all cached positions.
    pub open spec fn attends_cached<M: Math>(
        self,
        m: &M,
        q: Seq<F32>,
        cache: KvCache,
        weights: Seq<F32>,
        mixed: Seq<F32>,
        h: int,
    ) -> bool {
        let c = self.width as int;
        let hd = self.head_dim();
        let n = cache.count as int;
        let w = weights.subrange(h * n, h * n + n);
        &&& is_softmax(
            m,
            scores_of(q, h * hd, cache.k@, h * hd, c, hd, n, n, head_scale_of(hd)),
            w,
        )
        &&& head_part(mixed, 0, h, c, hd) == mix_of(w, cache.v@, h * hd, c, hd)
    }

    /// Whether `tr` leads from the row `x` to the row `t`, with attention over
    /// the cached positions and the new one.
    pub open spec fn explains_cached<M: Math>(
        self,
        m: &M,
        x: Tensor,
        before: KvCache,
        after: KvCache,
        tr: BlockTrace,
        t: Tensor,
    ) -> bool {
        let c = self.width as int;
        &&& self.starts(x, tr)
        &&& after.k@ == before.k@ + tr.k.data@
        &&& after.v@ == before.v@ + tr.v.data@
        &&& after.count == before.count + 1
        &&& after.limit == before.limit
        &&& after.width == before.width
        &&& tr.mixed.is_sized(1, c)
        &&& forall|h: int|
            0 <= h < self.heads ==> #[trigger] self.attends_cached(
                m,
                tr.q.data@,
                after,
                tr.weights@,
                tr.mixed.data@,
                h,
            )
        &&& self.finishes(x, tr, t)
        &&& t.is_sized(1, c)
    }
}


/// The sequence row of attention row `g`.
spec fn unit_row(g: int, heads: int, t: int) -> int {
    g / (heads * t) * t + g % (heads * t) % t
}

/// The head of attention row `g`.
spec fn unit_head(g: int, heads: int, t: int) -> int {
    g % (heads * t) / t
}

/// A quotient and a remainder are those of the number they make up.
proof fn lemma_digits(b: int, i: int, t: int)
    requires
        t > 0,
        0 <= i < t,
    ensures
        (b * t + i) / t == b,
        (b * t + i) % t == i,
{
    vstd::arithmetic::div_mod::lemma_fundamental_div_mod_converse(b * t + i, t, b, i);
}

proof fn lemma_unit(blk: TransformerBlock, rows: int, g: int)
    requires
        blk.context > 0,
        blk.heads > 0,
        rows % (blk.context as int) == 0,
        0 <= g < rows * blk.heads,
    ensures
        0 <= unit_row(g, blk.heads as int, blk.context as int) < rows,
        0 <= unit_head(g, blk.heads as int, blk.context as int) < blk.heads,
        blk.unit(
            unit_row(g, blk.heads as int, blk.context as int),
            unit_head(g, blk.heads as int, blk.context as int),
        ) == g,
        unit_row(g, blk.heads as int, blk.context as int) / (blk.context as int) == g / (blk.heads
            * blk.context),
        unit_row(g, blk.heads as int, blk.context as int) % (blk.context as int) == g % (blk.heads
            * blk.context) % (blk.context as int),
        (g / (blk.heads * blk.context) + 1) * blk.context <= rows,
{
    let heads = blk.heads as int;
    let t = blk.context as int;
    let ht = heads * t;
    assert(ht > 0) by (nonlinear_arith)
        requires
            ht == heads * t,
            heads > 0,
            t > 0,
    ;
    let b = g / ht;
    let rest = g % ht;
    let h = rest / t;
    let i = rest % t;
    assert(g == b * ht + rest && 0 <= rest < ht && b >= 0) by (nonlinear_arith)
        requires
            b == g / ht,
            rest == g % ht,
            ht > 0,
            g >= 0,
    ;
    assert(rest == h * t + i && 0 <= i < t && 0 <= h < heads) by (nonlinear_arith)
        requires
            h == rest / t,
            i == rest % t,
            0 <= rest < heads * t,
            t > 0,
    ;
    lemma_digits(b, i, t);
    let n = rows / t;
    assert(rows == n * t) by (nonlinear_arith)
        requires
            n == rows / t,
            rows % t == 0,
            t > 0,
    ;
    assert(b < n) by (nonlinear_arith)
        requires
            g == b * ht + rest,
            rest >= 0,
            g < rows * heads,
            rows == n * t,
            ht == heads * t,
            heads > 0,
            t > 0,
    ;
    assert(b * t + i < rows && (b + 1) * t <= rows) by (nonlinear_arith)
        requires
            b + 1 <= n,
            rows == n * t,
            0 <= i < t,
    ;
    assert(0 <= b * t) by (nonlinear_arith)
        requires
            b >= 0,
            t > 0,
    ;
    assert((b * heads + h) * t + i == b * ht + rest) by (nonlinear_arith)
        requires
            ht == heads * t,
            rest == h * t + i,
    ;
}

proof fn lemma_unit_inverse(blk: TransformerBlock, rows: int, r: int, h: int)
    requires
        blk.context > 0,
        blk.heads > 0,
        rows % (blk.context as int) == 0,
        0 <= r < rows,
        0 <= h < blk.heads,
    ensures
        0 <= blk.unit(r, h) < rows * blk.heads,
        unit_row(blk.unit(r, h), blk.heads as int, blk.context as int) == r,
        unit_head(blk.unit(r, h), blk.heads as int, blk.context as int) == h,
{
    let heads = blk.heads as int;
    let t = blk.context as int;
    let ht = heads * t;
    let b = r / t;
    let i = r % t;
    let n = rows / t;
    assert(r == b * t + i && 0 <= i < t && 0 <= b) by (nonlinear_arith)
        requires
            b == r / t,
            i == r % t,
            t > 0,
            r >= 0,
    ;
    assert(rows == n * t) by (nonlinear_arith)
        requires
            n == rows / t,
            rows % t == 0,
            t > 0,
    ;
    assert(b < n) by (nonlinear_arith)
        requires
            r == b * t + i,
            i >= 0,
            r < n * t,
            rows == n * t,
            t > 0,
    ;
    let rest = h * t + i;
    assert(0 <= rest < ht) by (nonlinear_arith)
        requires
            rest == h * t + i,
            ht == heads * t,
            0 <= h < heads,
            0 <= i < t,
    ;
    let g = blk.unit(r, h);
    assert(g == b * ht + rest) by (nonlinear_arith)
        requires
            g == (b * heads + h) * t + i,
            ht == heads * t,
            rest == h * t + i,
    ;
    lemma_digits(b, rest, ht);
    lemma_digits(h, i, t);
    assert(0 <= g < rows * heads) by (nonlinear_arith)
        requires
            g == b * ht + rest,
            0 <= rest < ht,
            ht == heads * t,
            0 <= b,
            b + 1 <= n,
            rows == n * t,
            heads > 0,
            t > 0,
    ;
}

/// The part of a row that belongs to a head lies inside the row.
proof fn lemma_head(h: int, heads: int, c: int, hd: int)
    requires
        heads > 0,
        c >= 0,
        hd == c / heads,
        c % heads == 0,
        0 <= h < heads,
    ensures
        0 <= hd,
        0 <= h * hd,
        h * hd + hd <= c,
        heads * hd == c,
{
    assert(c == heads * hd && hd >= 0) by (nonlinear_arith)
        requires
            hd == c / heads,
            c % heads == 0,
            heads > 0,
            c >= 0,
    ;
    lemma_row(h, heads, hd);
}

impl TransformerBlock {
    /// Attention of every row within its own sequence: all weights, and the
    /// heads' outputs side by side.
    fn attend_all<M: Math>(&self, m: &M, q: &Tensor, k: &Tensor, v: &Tensor, rows: usize) -> (r: (
        Vec<F32>,
        Vec<F32>,
    ))
        requires
            self.fits(),
            rows as int % self.context as int == 0,
            q.is_sized(rows as int, self.width as int),
            k.is_sized(rows as int, self.width as int),
            v.is_sized(rows as int, self.width as int),
            rows * self.heads * self.context <= usize::MAX,
        ensures
            r.0@.len() == rows * self.heads * self.context,
            r.1@.len() == rows * self.width,
            forall|tr: BlockTrace, i: int, h: int|
                0 <= i < rows && 0 <= h < self.heads && tr.q == *q && tr.k == *k && tr.v == *v
                    && tr.weights@ == r.0@ && tr.mixed.data@ == r.1@ ==> #[trigger] self.attends(
                    m,
                    tr,
                    i,
                    h,
                ),
    {
        let t: usize = self.context;
        let c: usize = self.width;
        let heads: usize = self.heads;
        let hd: usize = c / heads;
        let scale: F32 = head_scale(hd);
        let total: usize = q.data.len();
        if rows == 0 {
            proof {
                assert(rows * heads == 0 && 0 * t == 0 && rows * c == 0) by (nonlinear_arith)
                    requires
                        rows == 0,
                ;
            }
            return (Vec::new(), Vec::new());
        }
        proof {
            assert(rows * heads <= usize::MAX && heads * t <= usize::MAX) by (nonlinear_arith)
                requires
                    rows * heads * t <= usize::MAX,
                    rows >= 1,
                    heads >= 1,
                    t >= 1,
            ;
        }
        let units: usize = rows * heads;
        let ht: usize = heads * t;
        proof {
            assert(ht > 0) by (nonlinear_arith)
                requires
                    ht == heads * t,
                    heads > 0,
                    t > 0,
            ;
            lemma_head(0, heads as int, c as int, hd as int);
            assert(units * hd == rows * c) by (nonlinear_arith)
                requires
                    units == rows * heads,
                    heads * hd == c,
            ;
        }
        let mut weights: Vec<F32> = Vec::new();
        let mut parts: Vec<F32> = Vec::new();
        let mut g: usize = 0;
        while g < units
            invariant
                self.fits(),
                g <= units,
                units == rows * heads,
                rows as int % t as int == 0,
                t == self.context,
                c == self.width,
                heads == self.heads,
                hd == c as int / heads as int,
                ht == heads * t,
                ht > 0,
                heads * hd == c,
                total == rows * c,
                units * hd == rows * c,
                scale == head_scale_of(hd as int),
                q.is_sized(rows as int, c as int),
                k.is_sized(rows as int, c as int),
                v.is_sized(rows as int, c as int),
                weights@.len() == g * t,
                parts@.len() == g * hd,
                forall|x: int|
                    0 <= x < g ==> #[trigger] self.unit_done(
                        m,
                        q.data@,
                        k.data@,
                        v.data@,
                        weights@,
                        parts@,
                        x,
                    ),
            decreases units - g,
        {
            let b: usize = g / ht;
            let rest: usize = g % ht;
            let h: usize = rest / t;
            let i: usize = rest % t;
            proof {
                lemma_unit(*self, rows as int, g as int);
                assert(0 <= b * t && (b + 1) * t == b * t + t) by (nonlinear_arith)
                    requires
                        b >= 0,
                        t > 0,
                ;
            }
            let first_row: usize = b * t;
            let r: usize = first_row + i;
            proof {
                assert(r == unit_row(g as int, heads as int, t as int));
                assert(h == unit_head(g as int, heads as int, t as int));
                lemma_head(h as int, heads as int, c as int, hd as int);
                lemma_row(r as int, rows as int, c as int);
                lemma_row(first_row as int, rows as int, c as int);
                // The last row of this sequence ends inside the storage.
                let last = (t - 1) * c;
                assert(first_row * c + last + c <= rows * c && 0 <= last) by (nonlinear_arith)
                    requires
                        first_row + t <= rows,
                        last == (t - 1) * c,
                        t >= 1,
                        c >= 0,
                ;
            }
            let q0: usize = r * c + h * hd;
            let kv0: usize = first_row * c + h * hd;
            let (w, o) = attend_head(
                m,
                q.data.as_slice(),
                q0,
                k.data.as_slice(),
                v.data.as_slice(),
                kv0,
                c,
                hd,
                t,
                i + 1,
                scale,
            );
            let ghost w0 = weights@;
            let ghost p0 = parts@;
            append_row(&mut weights, w.as_slice());
            append_row(&mut parts, o.as_slice());
            proof {
                assert(g * t + t == (g + 1) * t && g * hd + hd == (g + 1) * hd) by (nonlinear_arith);
                assert forall|x: int| 0 <= x < g + 1 implies #[trigger] self.unit_done(
                    m,
                    q.data@,
                    k.data@,
                    v.data@,
                    weights@,
                    parts@,
                    x,
                ) by {
                    if x < g {
                        lemma_row(x, g as int, t as int);
                        lemma_row(x, g as int, hd as int);
                        assert(self.unit_done(m, q.data@, k.data@, v.data@, w0, p0, x));
                        assert(weights@.subrange(x * t, x * t + t) =~= w0.subrange(
                            x * t,
                            x * t + t,
                        ));
                        assert(parts@.subrange(x * hd, x * hd + hd) =~= p0.subrange(
                            x * hd,
                            x * hd + hd,
                        ));
                    } else {
                        assert(weights@.subrange(x * t, x * t + t) =~= w@);
                        assert(parts@.subrange(x * hd, x * hd + hd) =~= o@);
                    }
                }
            }
            g = g + 1;
        }
        let mut mixed: Vec<F32> = Vec::with_capacity(total);
        let mut r: usize = 0;
        while r < rows
            invariant
                self.fits(),
                r <= rows,
                units == rows * heads,
                rows as int % t as int == 0,
                t == self.context,
                c == self.width,
                heads == self.heads,
                hd == c as int / heads as int,
                heads * hd == c,
                total == rows * c,
                units * hd == rows * c,
                parts@.len() == units * hd,
                mixed@.len() == r * c,
                forall|i: int, h: int|
                    0 <= i < r && 0 <= h < heads ==> #[trigger] head_part(
                        mixed@,
                        i,
                        h,
                        c as int,
                        hd as int,
                    ) == parts@.subrange(self.unit(i, h) * hd, self.unit(i, h) * hd + hd),
            decreases rows - r,
        {
            let mut h: usize = 0;
            proof {
                lemma_row(r as int, rows as int, c as int);
            }
            while h < heads
                invariant
                    self.fits(),
                    r < rows,
                    h <= heads,
                    units == rows * heads,
                    rows as int % t as int == 0,
                    t == self.context,
                    c == self.width,
                    heads == self.heads,
                    hd == c as int / heads as int,
                    heads * hd == c,
                    total == rows * c,
                    units * hd == rows * c,
                    parts@.len() == units * hd,
                    mixed@.len() == r * c + h * hd,
                    forall|i: int, x: int|
                        0 <= i < r && 0 <= x < heads ==> #[trigger] head_part(
                            mixed@,
                            i,
                            x,
                            c as int,
                            hd as int,
                        ) == parts@.subrange(self.unit(i, x) * hd, self.unit(i, x) * hd + hd),
                    forall|x: int|
                        0 <= x < h ==> #[trigger] head_part(
                            mixed@,
                            r as int,
                            x,
                            c as int,
                            hd as int,
                        ) == parts@.subrange(
                            self.unit(r as int, x) * hd,
                            self.unit(r as int, x) * hd + hd,
                        ),
                decreases heads - h,
            {
                proof {
                    lemma_unit_inverse(*self, rows as int, r as int, h as int);
                    let u = self.unit(r as int, h as int);
                    lemma_row(u, units as int, hd as int);
                    let b = r as int / t as int;
                    assert(0 <= b && b * heads + h <= u && 0 <= b * heads) by (nonlinear_arith)
                        requires
                            b == r as int / t as int,
                            u == (b * heads + h) * t + r as int % t as int,
                            t >= 1,
                            h >= 0,
                            heads >= 1,
                            r >= 0,
                            r as int % t as int >= 0,
                    ;
                    assert((b * heads + h) * t <= u && 0 <= (b * heads + h) * t) by (nonlinear_arith)
                        requires
                            u == (b * heads + h) * t + r as int % t as int,
                            r as int % t as int >= 0,
                            b * heads >= 0,
                            h >= 0,
                            t >= 1,
                    ;
                }
                let u: usize = (r / t * heads + h) * t + r % t;
                let from: usize = u * hd;
                let ghost before = mixed@;
                append_row(&mut mixed, slice_subrange(parts.as_slice(), from, from + hd));
                proof {
                    assert(h * hd + hd == (h + 1) * hd) by (nonlinear_arith);
                    assert forall|i: int, x: int| 0 <= i < r && 0 <= x < heads implies #[trigger] head_part(
                        mixed@,
                        i,
                        x,
                        c as int,
                        hd as int,
                    ) == parts@.subrange(self.unit(i, x) * hd, self.unit(i, x) * hd + hd) by {
                        lemma_row(i, r as int, c as int);
                        lemma_head(x, heads as int, c as int, hd as int);
                        assert(head_part(mixed@, i, x, c as int, hd as int) =~= head_part(
                            before,
                            i,
                            x,
                            c as int,
                            hd as int,
                        ));
                    }
                    assert forall|x: int| 0 <= x < h + 1 implies #[trigger] head_part(
                        mixed@,
                        r as int,
                        x,
                        c as int,
                        hd as int,
                    ) == parts@.subrange(
                        self.unit(r as int, x) * hd,
                        self.unit(r as int, x) * hd + hd,
                    ) by {
                        lemma_row(x, h + 1, hd as int);
                        if x < h {
                            lemma_row(x, h as int, hd as int);
                            assert(head_part(mixed@, r as int, x, c as int, hd as int)
                                =~= head_part(before, r as int, x, c as int, hd as int));
                        } else {
                            assert(head_part(mixed@, r as int, x, c as int, hd as int)
                                =~= parts@.subrange(from as int, from + hd));
                        }
                    }
                }
                h = h + 1;
            }
            r = r + 1;
        }
        proof {
            assert forall|tr: BlockTrace, i: int, h: int|
                0 <= i < rows && 0 <= h < self.heads && tr.q == *q && tr.k == *k && tr.v == *v
                    && tr.weights@ == weights@ && tr.mixed.data@ == mixed@ implies #[trigger] self.attends(
                m,
                tr,
                i,
                h,
            ) by {
                lemma_unit_inverse(*self, rows as int, i, h);
                let u = self.unit(i, h);
                lemma_unit(*self, rows as int, u);
                assert(self.unit_done(m, q.data@, k.data@, v.data@, weights@, parts@, u));
                assert(head_part(mixed@, i, h, c as int, hd as int) == parts@.subrange(
                    u * hd,
                    u * hd + hd,
                ));
            }
        }
        (weights, mixed)
    }

    /// Whether attention row `g` is in place.
    spec fn unit_done<M: Math>(
        self,
        m: &M,
        q: Seq<F32>,
        k: Seq<F32>,
        v: Seq<F32>,
        weights: Seq<F32>,
        parts: Seq<F32>,
        g: int,
    ) -> bool {
        let t = self.context as int;
        let c = self.width as int;
        let hd = self.head_dim();
        let r = unit_row(g, self.heads as int, t);
        let h = unit_head(g, self.heads as int, t);
        let first = (r / t) * t * c + h * hd;
        let w = weights.subrange(g * t, g * t + t);
        &&& is_softmax(
            m,
            scores_of(q, r * c + h * hd, k, first, c, hd, t, r % t + 1, head_scale_of(hd)),
            w,
        )
        &&& parts.subrange(g * hd, g * hd + hd) == mix_of(w, v, first, c, hd)
    }
}


/// Negative elements replaced by zero.
pub(crate) fn relu_tensor(a: &Tensor) -> (t: Tensor)
    ensures
        is_relu(*a, t),
        a.wf() ==> t.wf(),
{
    a.map(|v: F32| -> (y: F32) ensures y == relu_of(v), { v.max(F32::zero()) })
}

/// The tensors after attention, and the output.
struct Finish {
    projected: Tensor,
    mid: Tensor,
    norm2: Tensor,
    hidden: Tensor,
    active: Tensor,
    widened: Tensor,
    out: Tensor,
}

impl TransformerBlock {
    /// Projection, residual, norm, feed-forward, residual.
    fn finish<M: Math>(&self, m: &M, x: &Tensor, mixed: &Tensor) -> (r: Result<Finish>)
        requires
            self.fits(),
            x.wf(),
            mixed.wf(),
            x.is_matrix(),
            x.is_sized(x.shape@[0] as int, self.width as int),
            mixed.is_sized(x.shape@[0] as int, self.width as int),
            x.shape@[0] * self.ffn1.out_f <= usize::MAX,
        ensures
            r is Ok,
            r->Ok_0.out.wf(),
            r->Ok_0.out.is_sized(x.shape@[0] as int, self.width as int),
            forall|tr: BlockTrace|
                tr.mixed == *mixed && tr.projected == r->Ok_0.projected && tr.mid == r->Ok_0.mid
                    && tr.norm2 == r->Ok_0.norm2 && tr.hidden == r->Ok_0.hidden && tr.active
                    == r->Ok_0.active && tr.widened == r->Ok_0.widened ==> #[trigger] self.finishes(
                    *x,
                    tr,
                    r->Ok_0.out,
                ),
    {
        let held: usize = x.data.len();
        let projected: Tensor = match self.out_proj.forward(m, mixed) {
            Ok(t) => t,
            Err(e) => return Err(e),
        };
        assert(projected.shape@ =~= x.shape@);
        let mid: Tensor = match crate::ops::add(x, &projected) {
            Ok(t) => t,
            Err(e) => return Err(e),
        };
        let norm2: Tensor = match self.ln2.forward(m, &mid) {
            Ok(t) => t,
            Err(e) => return Err(e),
        };
        let hidden: Tensor = match self.ffn1.forward(m, &norm2) {
            Ok(t) => t,
            Err(e) => return Err(e),
        };
        let active: Tensor = relu_tensor(&hidden);
        let widened: Tensor = match self.ffn2.forward(m, &active) {
            Ok(t) => t,
            Err(e) => return Err(e),
        };
        assert(widened.shape@ =~= mid.shape@);
        let out: Tensor = match crate::ops::add(&mid, &widened) {
            Ok(t) => t,
            Err(e) => return Err(e),
        };
        Ok(Finish { projected, mid, norm2, hidden, active, widened, out })
    }

    /// The refusal of an input that is not a whole number of sequences of the
    /// block's width, or whose intermediate tensors cannot be held.
    pub open spec fn refuses(self, x: Tensor, e: InferError) -> bool {
        ||| not_matrix(x, e)
        ||| x.is_matrix() && e is DimMismatch && {
            ||| x.shape@[1] != self.width
            ||| x.shape@[0] as int % self.context as int != 0
            ||| x.shape@[0] * self.ffn1.out_f > usize::MAX
            ||| x.shape@[0] * self.heads * self.context > usize::MAX
        }
    }

    /// Applies the block and also returns the attention weights: sequences
    /// first, then heads, then query positions, then key positions.
    pub fn forward_with_attention<M: Math>(&self, m: &M, input: &Tensor) -> (r: Result<
        (Tensor, Vec<F32>),
    >)
        requires
            self.fits(),
            input.wf(),
        ensures
            match r {
                Ok((t, weights)) => {
                    &&& t.wf()
                    &&& exists|tr: BlockTrace|
                        #[trigger] self.explains(m, *input, tr, t) && tr.weights@ == weights@
                },
                Err(e) => self.refuses(*input, e),
            },
    {
        let (rows, c) = match input.matrix_dims() {
            Ok(d) => d,
            Err(e) => return Err(e),
        };
        if c != self.width {
            return Err(mismatch("TransformerBlock expects dim ", self.width, ", got ", c));
        }
        if rows % self.context != 0 {
            return Err(
                mismatch("Input rows ", rows, " must be divisible by context_len ", self.context),
            );
        }
        if rows.checked_mul(self.ffn1.out_f).is_none() {
            return Err(mismatch("hidden layer too large: ", rows, " by ", self.ffn1.out_f));
        }
        let units: usize = match rows.checked_mul(self.heads) {
            Some(n) => n,
            None => {
                proof {
                    assert(rows * self.heads * self.context > usize::MAX) by (nonlinear_arith)
                        requires
                            rows * self.heads > usize::MAX,
                            self.context >= 1,
                    ;
                }
                return Err(mismatch("attention too large: ", rows, " by ", self.heads));
            },
        };
        if units.checked_mul(self.context).is_none() {
            return Err(mismatch("attention too large: ", units, " by ", self.context));
        }
        let held: usize = input.data.len();
        let norm1: Tensor = match self.ln1.forward(m, input) {
            Ok(t) => t,
            Err(e) => return Err(e),
        };
        let q: Tensor = match self.q_proj.forward(m, &norm1) {
            Ok(t) => t,
            Err(e) => return Err(e),
        };
        let k: Tensor = match self.k_proj.forward(m, &norm1) {
            Ok(t) => t,
            Err(e) => return Err(e),
        };
        let v: Tensor = match self.v_proj.forward(m, &norm1) {
            Ok(t) => t,
            Err(e) => return Err(e),
        };
        let (weights, mixed_data) = self.attend_all(m, &q, &k, &v, rows);
        let mixed: Tensor = match Tensor::matrix(rows, c, mixed_data) {
            Ok(t) => t,
            Err(e) => return Err(e),
        };
        let f: Finish = match self.finish(m, input, &mixed) {
            Ok(f) => f,
            Err(e) => return Err(e),
        };
        let ghost tr = BlockTrace {
            norm1,
            q,
            k,
            v,
            weights,
            mixed,
            projected: f.projected,
            mid: f.mid,
            norm2: f.norm2,
            hidden: f.hidden,
            active: f.active,
            widened: f.widened,
        };
        proof {
            assert(self.finishes(*input, tr, f.out));
            assert forall|i: int, h: int|
                0 <= i < rows && 0 <= h < self.heads implies #[trigger] self.attends(m, tr, i, h) by {}
            assert(self.explains(m, *input, tr, f.out));
        }
        Ok((f.out, weights))
    }

    /// One token: appends its key and value to the cache and attends over all
    /// cached positions. Gives the same values as a pass over the whole sequence
    /// gives for this position. A refused call leaves the cache as it was.
    pub fn forward_with_cache<M: Math>(&self, m: &M, x: &Tensor, cache: &mut KvCache) -> (r: Result<
        Tensor,
    >)
        requires
            self.fits(),
            x.wf(),
            old(cache).wf(),
        ensures
            final(cache).wf(),
            match r {
                Ok(t) => {
                    &&& x.is_sized(1, self.width as int)
                    &&& old(cache).width == self.width
                    &&& old(cache).count < old(cache).limit
                    &&& t.wf()
                    &&& exists|tr: BlockTrace|
                        #[trigger] self.explains_cached(m, *x, *old(cache), *final(cache), tr, t)
                },
                Err(e) => {
                    &&& *final(cache) == *old(cache)
                    &&& not_matrix(*x, e) || (e is DimMismatch && {
                        ||| !x.is_sized(1, self.width as int)
                        ||| old(cache).width != self.width
                        ||| old(cache).count >= old(cache).limit
                        ||| (old(cache).count + 1) * self.width > usize::MAX
                        ||| (old(cache).count + 1) * self.heads > usize::MAX
                    })
                },
            },
    {
        let (rows, c) = match x.matrix_dims() {
            Ok(d) => d,
            Err(e) => return Err(e),
        };
        if rows != 1 || c != self.width {
            return Err(mismatch("forward_with_cache expects one row of ", self.width, ", got ", c));
        }
        if cache.width != c {
            return Err(mismatch("KvCache dim ", cache.width, " ≠ block embedding_dim ", c));
        }
        if cache.is_full() {
            return Err(
                mismatch(
                    "KvCache full: clear and re-prime to continue: ",
                    cache.count,
                    " of ",
                    cache.limit,
                ),
            );
        }
        let n: usize = cache.count + 1;
        if n.checked_mul(c).is_none() {
            return Err(mismatch("KvCache too large: ", n, " by ", c));
        }
        if n.checked_mul(self.heads).is_none() {
            return Err(mismatch("attention too large: ", n, " by ", self.heads));
        }
        proof {
            let w = self.width as int;
            let f = self.ffn1.out_f as int;
            assert(1 * w == w) by (nonlinear_arith);
            assert(1 * f == f) by (nonlinear_arith);
        }
        let norm1: Tensor = match self.ln1.forward(m, x) {
            Ok(t) => t,
            Err(e) => return Err(e),
        };
        let q: Tensor = match self.q_proj.forward(m, &norm1) {
            Ok(t) => t,
            Err(e) => return Err(e),
        };
        let k: Tensor = match self.k_proj.forward(m, &norm1) {
            Ok(t) => t,
            Err(e) => return Err(e),
        };
        let v: Tensor = match self.v_proj.forward(m, &norm1) {
            Ok(t) => t,
            Err(e) => return Err(e),
        };
        let ghost before = *cache;
        append_row(&mut cache.k, k.data.as_slice());
        append_row(&mut cache.v, v.data.as_slice());
        cache.count = n;
        proof {
            assert(before.count * c + c == n * c) by (nonlinear_arith)
                requires
                    n == before.count + 1,
            ;
        }
        let heads: usize = self.heads;
        let hd: usize = c / heads;
        let scale: F32 = head_scale(hd);
        let lk: usize = cache.k.len();
        let mut weights: Vec<F32> = Vec::new();
        let mut mixed_data: Vec<F32> = Vec::with_capacity(c);
        let mut h: usize = 0;
        while h < heads
            invariant
                h <= heads,
                heads == self.heads,
                heads > 0,
                c == self.width,
                c as int % heads as int == 0,
                hd == c as int / heads as int,
                n >= 1,
                cache.count == n,
                lk == n * c,
                cache.k@.len() == n * c,
                cache.v@.len() == n * c,
                q.data@.len() == c,
                scale == head_scale_of(hd as int),
                weights@.len() == h * n,
                mixed_data@.len() == h * hd,
                forall|y: int|
                    0 <= y < h ==> #[trigger] self.attends_cached(m, q.data@, *cache, weights@, mixed_data@, y),
            decreases heads - h,
        {
            proof {
                lemma_head(h as int, heads as int, c as int, hd as int);
                assert((n - 1) * c + c == n * c && 0 <= (n - 1) * c) by (nonlinear_arith)
                    requires
                        n >= 1,
                        c >= 0,
                ;
            }
            let at: usize = h * hd;
            let (w, o) = attend_head(
                m,
                q.data.as_slice(),
                at,
                cache.k.as_slice(),
                cache.v.as_slice(),
                at,
                c,
                hd,
                n,
                n,
                scale,
            );
            let ghost w0 = weights@;
            let ghost m0 = mixed_data@;
            append_row(&mut weights, w.as_slice());
            append_row(&mut mixed_data, o.as_slice());
            proof {
                assert(h * n + n == (h + 1) * n && h * hd + hd == (h + 1) * hd) by (nonlinear_arith);
                assert(0 * c == 0) by (nonlinear_arith);
                assert forall|y: int| 0 <= y < h + 1 implies #[trigger] self.attends_cached(m, q.data@, *cache, weights@, mixed_data@, y) by {
                    lemma_row(y, h + 1, n as int);
                    lemma_row(y, h + 1, hd as int);
                    if y < h {
                        lemma_row(y, h as int, n as int);
                        lemma_row(y, h as int, hd as int);
                        assert(self.attends_cached(m, q.data@, *cache, w0, m0, y));
                        assert(weights@.subrange(y * n, y * n + n) =~= w0.subrange(
                            y * n,
                            y * n + n,
                        ));
                        assert(head_part(mixed_data@, 0, y, c as int, hd as int) =~= head_part(
                            m0,
                            0,
                            y,
                            c as int,
                            hd as int,
                        ));
                    } else {
                        assert(weights@.subrange(y * n, y * n + n) =~= w@);
                        assert(head_part(mixed_data@, 0, y, c as int, hd as int) =~= o@);
                    }
                }
            }
            h = h + 1;
        }
        proof {
            lemma_head(0, heads as int, c as int, hd as int);
        }
        let mixed: Tensor = match Tensor::matrix(1, c, mixed_data) {
            Ok(t) => t,
            Err(e) => return Err(e),
        };
        let f: Finish = match self.finish(m, x, &mixed) {
            Ok(f) => f,
            Err(e) => return Err(e),
        };
        let ghost tr = BlockTrace {
            norm1,
            q,
            k,
            v,
            weights,
            mixed,
            projected: f.projected,
            mid: f.mid,
            norm2: f.norm2,
            hidden: f.hidden,
            active: f.active,
            widened: f.widened,
        };
        proof {
            assert(self.finishes(*x, tr, f.out));
            assert(self.explains_cached(m, *x, before, *cache, tr, f.out));
        }
        Ok(f.out)
    }
}

impl Layer for TransformerBlock {
    open spec fn wf(&self) -> bool {
        self.fits()
    }

    open spec fn is_refusal(&self, x: Tensor, e: InferError) -> bool {
        self.refuses(x, e)
    }

    open spec fn label(&self) -> Seq<char> {
        "TransformerBlock(heads="@ + dec(self.heads as nat) + ", dim="@ + dec(self.width as nat)
            + ", hidden="@ + dec(self.ffn1.out_f as nat) + ")"@
    }

    fn name(&self) -> (s: String) {
        let mut s: String = "TransformerBlock(heads=".to_owned();
        push_dec(&mut s, self.heads as u64);
        s.append(", dim=");
        push_dec(&mut s, self.width as u64);
        s.append(", hidden=");
        push_dec(&mut s, self.ffn1.out_f as u64);
        s.append(")");
        s
    }
}

impl<M: Math> Forward<M> for TransformerBlock {
    open spec fn is_output(&self, m: &M, x: Tensor, t: Tensor) -> bool {
        exists|tr: BlockTrace| #[trigger] self.explains(m, x, tr, t)
    }

    fn forward(&self, m: &M, input: &Tensor) -> (r: Result<Tensor>) {
        match self.forward_with_attention(m, input) {
            Ok((t, _)) => Ok(t),
            Err(e) => Err(e),
        }
    }
}

} // verus!
