//! A decoder block with its derivatives.
use crate::float::F32;
use crate::llm::{add_rows, add_rows_exec, FeedForward, LlamaBlock};
use crate::math::Math;
use crate::rng::{scramble, state_after, unit_of, Rng, ZERO_SEED_REPLACEMENT};
use crate::tensor::copy_f32;
use crate::train_attention::{
    attn_backed, attn_backward, attn_forward, attn_forwarded, attn_is_plain, cache_sized, AttnCache,
    BlockBuf,
};
use crate::train_ops::{
    affine, affine_adds, affine_dx, is_plain, is_swish, is_swish_slope, lin_backward, lin_forward,
    norm_backward, norm_dw, norm_forward, norm_rows_dx, rms_invs, rms_rows, silu_grad, swish, Rope,
};
use vstd::prelude::*;

verus! {

/// What the forward pass of a feed-forward part leaves behind.
pub struct FfnCache {
    /// The input rows.
    pub xn: Vec<F32>,
    /// Gates and values, before they are joined.
    pub g: Vec<F32>,
    pub u: Vec<F32>,
    /// The hidden rows, masked if there is a mask.
    pub h: Vec<F32>,
    pub mask: Option<Vec<F32>>,
}

/// What the forward pass of a block leaves behind.
pub struct BlockCache {
    /// The input rows.
    pub x: Vec<F32>,
    pub n1_inv: Vec<F32>,
    pub attn: AttnCache,
    /// The rows behind the attention.
    pub h: Vec<F32>,
    pub n2_inv: Vec<F32>,
    pub ffn: FfnCache,
}

// ---------------------------------------------------------------------------
// Feed-forward part
// ---------------------------------------------------------------------------

/// A feed-forward part in full precision.
pub open spec fn ffn_is_plain(f: FeedForward) -> bool {
    f.fits() && is_plain(f.gate) && is_plain(f.up) && is_plain(f.down)
}

/// The state of a generator that is started with a seed.
pub open spec fn seeded(seed: u64) -> u64 {
    if seed == 0 {
        ZERO_SEED_REPLACEMENT
    } else {
        seed
    }
}

/// The factor of each hidden element: zero with a probability, and what makes up
/// for it otherwise.
pub open spec fn mask_of(dropout: F32, seed: u64, n: nat) -> Seq<F32> {
    Seq::new(
        n,
        |i: int|
            if unit_of(scramble(state_after(seeded(seed), (i + 1) as nat))).lt_spec(dropout) {
                F32 { bits: 0 }
            } else {
                F32 { bits: 0x3f80_0000 }.div_spec(F32 { bits: 0x3f80_0000 }.sub_spec(dropout))
            },
    )
}

/// Whether elements are masked at all.
pub open spec fn is_masked(dropout: F32) -> bool {
    (F32 { bits: 0 }).lt_spec(dropout)
}

/// `p` is the hidden element of a gate and a value.
pub open spec fn is_hidden<M: Math>(m: &M, g: F32, u: F32, p: F32) -> bool {
    exists|s: F32| #[trigger] is_swish(m, g, s) && p == s.mul_spec(u)
}

/// `h` is the hidden element of a gate and a value, times a factor.
pub open spec fn is_masked_hidden<M: Math>(m: &M, g: F32, u: F32, f: F32, h: F32) -> bool {
    exists|p: F32| #[trigger] is_hidden(m, g, u, p) && h == p.mul_spec(f)
}

/// The cache is that of the rows `xn`.
pub open spec fn ffn_forwarded<M: Math>(
    m: &M,
    f: FeedForward,
    xn: Seq<F32>,
    seq: int,
    dropout: F32,
    seed: u64,
    c: FfnCache,
) -> bool {
    &&& c.xn@ == xn
    &&& c.g@ == affine(f.gate, xn, seq)
    &&& c.u@ == affine(f.up, xn, seq)
    &&& c.h@.len() == c.g@.len()
    &&& if is_masked(dropout) {
        &&& c.mask is Some
        &&& c.mask->0@ == mask_of(dropout, seed, c.h@.len())
        &&& forall|i: int|
            0 <= i < c.h@.len() ==> is_masked_hidden(
                m,
                c.g@[i],
                c.u@[i],
                c.mask->0@[i],
                #[trigger] c.h@[i],
            )
    } else {
        &&& c.mask is None
        &&& forall|i: int|
            0 <= i < c.h@.len() ==> is_hidden(m, c.g@[i], c.u@[i], #[trigger] c.h@[i])
    }
}

/// The sizes of a cache.
pub open spec fn ffn_sized(f: FeedForward, seq: int, c: FfnCache) -> bool {
    &&& c.xn@.len() == seq * f.gate.in_f
    &&& c.g@.len() == seq * f.gate.out_f
    &&& c.u@.len() == seq * f.gate.out_f
    &&& c.h@.len() == seq * f.gate.out_f
    &&& c.mask matches Some(k) ==> k@.len() == seq * f.gate.out_f
}

/// The factor of each hidden element.
fn draw_mask(dropout: F32, seed: u64, n: usize) -> (k: Vec<F32>)
    ensures
        k@ == mask_of(dropout, seed, n as nat),
{
    let scale: F32 = F32::one().div(F32::one().sub(dropout));
    let mut rng: Rng = Rng::new(seed);
    let ghost start = rng@;
    let mut k: Vec<F32> = Vec::new();
    let mut i: usize = 0;
    while i < n
        invariant
            i <= n,
            start == seeded(seed),
            rng@ == state_after(start, i as nat),
            scale == (F32 { bits: 0x3f80_0000 }).div_spec(
                (F32 { bits: 0x3f80_0000 }).sub_spec(dropout),
            ),
            k@.len() == i,
            forall|j: int| 0 <= j < i ==> #[trigger] k@[j] == mask_of(dropout, seed, n as nat)[j],
        decreases n - i,
    {
        let x: F32 = rng.next_f32();
        assert((i + 1 - 1) as nat == i as nat);
        if x.lt(dropout) {
            k.push(F32::zero());
        } else {
            k.push(scale);
        }
        i = i + 1;
    }
    assert(k@ =~= mask_of(dropout, seed, n as nat));
    k
}

/// The feed-forward part of all rows.
pub(crate) fn ffn_forward<M: Math>(
    m: &M,
    f: &FeedForward,
    xn: &[F32],
    seq: usize,
    dropout: F32,
    seed: u64,
) -> (c: FfnCache)
    requires
        ffn_is_plain(*f),
        xn@.len() == seq * f.gate.in_f,
        seq * f.gate.out_f <= usize::MAX,
    ensures
        ffn_forwarded(m, *f, xn@, seq as int, dropout, seed, c),
        ffn_sized(*f, seq as int, c),
{
    let g: Vec<F32> = lin_forward(&f.gate, xn, seq);
    let u: Vec<F32> = lin_forward(&f.up, xn, seq);
    let n: usize = g.len();
    let mut h: Vec<F32> = Vec::new();
    let mut i: usize = 0;
    while i < n
        invariant
            i <= n == g@.len() == u@.len(),
            h@.len() == i,
            forall|k: int| 0 <= k < i ==> is_hidden(m, g@[k], u@[k], #[trigger] h@[k]),
        decreases n - i,
    {
        let s: F32 = swish(m, g[i]);
        let p: F32 = s.mul(u[i]);
        assert(is_swish(m, g@[i as int], s));
        h.push(p);
        i = i + 1;
    }
    if F32::zero().lt(dropout) {
        let k: Vec<F32> = draw_mask(dropout, seed, n);
        let mut out: Vec<F32> = Vec::new();
        let mut j: usize = 0;
        while j < n
            invariant
                j <= n == g@.len() == u@.len() == h@.len() == k@.len(),
                forall|t: int| 0 <= t < n ==> is_hidden(m, g@[t], u@[t], #[trigger] h@[t]),
                out@.len() == j,
                forall|t: int|
                    0 <= t < j ==> is_masked_hidden(m, g@[t], u@[t], k@[t], #[trigger] out@[t]),
            decreases n - j,
        {
            assert(is_hidden(m, g@[j as int], u@[j as int], h@[j as int]));
            out.push(h[j].mul(k[j]));
            j = j + 1;
        }
        FfnCache { xn: copy_f32(xn), g, u, h: out, mask: Some(k) }
    } else {
        FfnCache { xn: copy_f32(xn), g, u, h, mask: None }
    }
}

/// The gradient of a hidden element before the mask.
pub open spec fn unmasked(mask: Option<Vec<F32>>, d: Seq<F32>, i: int) -> F32 {
    match mask {
        Some(k) => d[i].mul_spec(k@[i]),
        None => d[i],
    }
}

/// `du` is the gradient of a value: that of the hidden element times its gate.
pub open spec fn is_value_gradient<M: Math>(m: &M, g: F32, d: F32, du: F32) -> bool {
    exists|s: F32| #[trigger] is_swish(m, g, s) && du == d.mul_spec(s)
}

/// `dg` is the gradient of a gate.
pub open spec fn is_gate_gradient<M: Math>(m: &M, g: F32, u: F32, d: F32, dg: F32) -> bool {
    exists|s: F32| #[trigger] is_swish_slope(m, g, s) && dg == d.mul_spec(u).mul_spec(s)
}

/// The gradients of a feed-forward part are added to a buffer, by way of the
/// gradients `dg` and `du` of gates and values.
pub open spec fn ffn_backed_via<M: Math>(
    m: &M,
    f: FeedForward,
    c: FfnCache,
    d_f: Seq<F32>,
    seq: int,
    g0: BlockBuf,
    g1: BlockBuf,
    dx: Seq<F32>,
    dg: Seq<F32>,
    du: Seq<F32>,
) -> bool {
    let n = seq * f.gate.out_f;
    let dh = affine_dx(f.down, d_f, seq);
    &&& dg.len() == n
    &&& du.len() == n
    &&& forall|i: int|
        0 <= i < n ==> is_value_gradient(m, c.g@[i], unmasked(c.mask, dh, i), #[trigger] du[i])
    &&& forall|i: int|
        0 <= i < n ==> is_gate_gradient(
            m,
            c.g@[i],
            c.u@[i],
            unmasked(c.mask, dh, i),
            #[trigger] dg[i],
        )
    &&& affine_adds(f.down, c.h@, d_f, seq, g0.down, g1.down)
    &&& affine_adds(f.gate, c.xn@, dg, seq, g0.gate, g1.gate)
    &&& affine_adds(f.up, c.xn@, du, seq, g0.up, g1.up)
    &&& g1.attn_norm == g0.attn_norm
    &&& g1.ffn_norm == g0.ffn_norm
    &&& g1.wq == g0.wq && g1.wk == g0.wk && g1.wv == g0.wv && g1.wo == g0.wo
    &&& dx == add_rows(affine_dx(f.gate, dg, seq), affine_dx(f.up, du, seq))
}

/// The gradients of a feed-forward part are added to a buffer.
pub open spec fn ffn_backed<M: Math>(
    m: &M,
    f: FeedForward,
    c: FfnCache,
    d_f: Seq<F32>,
    seq: int,
    g0: BlockBuf,
    g1: BlockBuf,
    dx: Seq<F32>,
) -> bool {
    exists|dg: Seq<F32>, du: Seq<F32>| #[trigger]
        ffn_backed_via(m, f, c, d_f, seq, g0, g1, dx, dg, du)
}

impl BlockBuf {
    /// The sizes are those of a feed-forward part.
    pub open spec fn suits_ffn(self, f: FeedForward) -> bool {
        self.gate.suits(f.gate) && self.up.suits(f.up) && self.down.suits(f.down)
    }

    /// The sizes are those of a block.
    pub open spec fn suits(self, b: LlamaBlock) -> bool {
        &&& self.suits_attn(b.attn)
        &&& self.suits_ffn(b.ffn)
        &&& self.attn_norm@.len() == b.attn_norm.weight@.len()
        &&& self.ffn_norm@.len() == b.ffn_norm.weight@.len()
    }
}

/// Adds the gradients of a feed-forward part to a buffer; the gradient of its
/// rows.
pub(crate) fn ffn_backward<M: Math>(
    m: &M,
    f: &FeedForward,
    c: &FfnCache,
    d_f: &[F32],
    seq: usize,
    g: &mut BlockBuf,
) -> (dx: Vec<F32>)
    requires
        ffn_is_plain(*f),
        ffn_sized(*f, seq as int, *c),
        d_f@.len() == seq * f.down.out_f,
        old(g).suits_ffn(*f),
    ensures
        ffn_backed(m, *f, *c, d_f@, seq as int, *old(g), *final(g), dx@),
        final(g).suits_ffn(*f),
        dx@.len() == seq * f.gate.in_f,
{
    let ghost g0 = *g;
    let dh: Vec<F32> = lin_backward(&f.down, c.h.as_slice(), d_f, seq, &mut g.down);
    let n: usize = c.g.len();
    let mut dg: Vec<F32> = Vec::new();
    let mut du: Vec<F32> = Vec::new();
    let mut i: usize = 0;
    while i < n
        invariant
            ffn_sized(*f, seq as int, *c),
            i <= n == dh@.len() == seq * f.gate.out_f,
            dg@.len() == i,
            du@.len() == i,
            forall|k: int|
                0 <= k < i ==> is_value_gradient(
                    m,
                    c.g@[k],
                    unmasked(c.mask, dh@, k),
                    #[trigger] du@[k],
                ),
            forall|k: int|
                0 <= k < i ==> is_gate_gradient(
                    m,
                    c.g@[k],
                    c.u@[k],
                    unmasked(c.mask, dh@, k),
                    #[trigger] dg@[k],
                ),
        decreases n - i,
    {
        let d: F32 = match &c.mask {
            Some(k) => dh[i].mul(k[i]),
            None => dh[i],
        };
        assert(d == unmasked(c.mask, dh@, i as int));
        let s: F32 = swish(m, c.g[i]);
        let t: F32 = silu_grad(m, c.g[i]);
        assert(is_swish(m, c.g@[i as int], s));
        assert(is_swish_slope(m, c.g@[i as int], t));
        du.push(d.mul(s));
        dg.push(d.mul(c.u[i]).mul(t));
        i = i + 1;
    }
    let dxg: Vec<F32> = lin_backward(&f.gate, c.xn.as_slice(), dg.as_slice(), seq, &mut g.gate);
    let dxu: Vec<F32> = lin_backward(&f.up, c.xn.as_slice(), du.as_slice(), seq, &mut g.up);
    let dx: Vec<F32> = add_rows_exec(dxg.as_slice(), dxu.as_slice());
    assert(ffn_backed_via(m, *f, *c, d_f@, seq as int, g0, *g, dx@, dg@, du@));
    dx
}

// ---------------------------------------------------------------------------
// Block
// ---------------------------------------------------------------------------

/// A block in full precision.
pub open spec fn block_is_plain(b: LlamaBlock) -> bool {
    b.fits() && attn_is_plain(b.attn) && ffn_is_plain(b.ffn)
}

/// The rows that a block gives.
pub open spec fn block_out(b: LlamaBlock, c: BlockCache, seq: int) -> Seq<F32> {
    add_rows(c.h@, affine(b.ffn.down, c.ffn.h@, seq))
}

/// The cache is that of the rows `x`.
#[verifier::opaque]
pub open spec fn block_forwarded<M: Math>(
    m: &M,
    b: LlamaBlock,
    rope: Rope,
    eps: F32,
    x: Seq<F32>,
    seq: int,
    dropout: F32,
    seed: u64,
    c: BlockCache,
) -> bool {
    let w1 = b.attn_norm.weight@;
    let w2 = b.ffn_norm.weight@;
    &&& c.x@ == x
    &&& c.n1_inv@ == rms_invs(x, w1.len() as int, eps, seq)
    &&& attn_forwarded(m, b.attn, rope, rms_rows(x, w1, eps, seq), seq, c.attn)
    &&& c.h@ == add_rows(x, affine(b.attn.wo, c.attn.ctx@, seq))
    &&& c.n2_inv@ == rms_invs(c.h@, w2.len() as int, eps, seq)
    &&& ffn_forwarded(m, b.ffn, rms_rows(c.h@, w2, eps, seq), seq, dropout, seed, c.ffn)
}

/// The sizes of a cache.
#[verifier::opaque]
pub open spec fn block_sized(b: LlamaBlock, seq: int, c: BlockCache) -> bool {
    &&& c.x@.len() == seq * b.dim()
    &&& c.h@.len() == seq * b.dim()
    &&& c.n1_inv@.len() == seq
    &&& c.n2_inv@.len() == seq
    &&& cache_sized(b.attn, seq * b.dim(), seq, c.attn)
    &&& ffn_sized(b.ffn, seq, c.ffn)
}

/// Whether the rows of a block can be held.
pub open spec fn block_holds(b: LlamaBlock, seq: int) -> bool {
    &&& seq * b.dim() <= usize::MAX
    &&& seq * b.attn.q_dim() <= usize::MAX
    &&& seq * b.attn.kv_dim() <= usize::MAX
    &&& seq * b.attn.n_heads <= usize::MAX
    &&& seq * b.ffn.gate.out_f <= usize::MAX
}

/// The settings of rotary positions suit a block.
pub open spec fn rope_suits(rope: Rope, b: LlamaBlock) -> bool {
    rope.wf() && rope.head_dim == b.attn.head_dim
}

/// A block on all rows; the cache, and the rows that it gives.
pub(crate) fn block_forward<M: Math>(
    m: &M,
    b: &LlamaBlock,
    rope: &Rope,
    eps: F32,
    x: Vec<F32>,
    seq: usize,
    dropout: F32,
    seed: u64,
) -> (r: (BlockCache, Vec<F32>))
    requires
        block_is_plain(*b),
        rope_suits(*rope, *b),
        block_holds(*b, seq as int),
        x@.len() == seq * b.dim(),
    ensures
        block_forwarded(m, *b, *rope, eps, x@, seq as int, dropout, seed, r.0),
        block_sized(*b, seq as int, r.0),
        r.1@ == block_out(*b, r.0, seq as int),
        r.1@.len() == seq * b.dim(),
{
    let (n1, n1_inv) = norm_forward(x.as_slice(), b.attn_norm.weight.as_slice(), eps, seq);
    let attn: AttnCache = attn_forward(m, &b.attn, rope, n1.as_slice(), seq);
    let o: Vec<F32> = lin_forward(&b.attn.wo, attn.ctx.as_slice(), seq);
    let h: Vec<F32> = add_rows_exec(x.as_slice(), o.as_slice());
    let (n2, n2_inv) = norm_forward(h.as_slice(), b.ffn_norm.weight.as_slice(), eps, seq);
    let ffn: FfnCache = ffn_forward(m, &b.ffn, n2.as_slice(), seq, dropout, seed);
    let f: Vec<F32> = lin_forward(&b.ffn.down, ffn.h.as_slice(), seq);
    let out: Vec<F32> = add_rows_exec(h.as_slice(), f.as_slice());
    proof {
        reveal(block_forwarded);
        reveal(block_sized);
    }
    (BlockCache { x, n1_inv, attn, h, n2_inv, ffn }, out)
}

/// Two buffers differ in the gradient of the second norm alone.
pub open spec fn only_ffn_norm(g0: BlockBuf, g1: BlockBuf) -> bool {
    &&& g1.attn_norm == g0.attn_norm
    &&& g1.wq == g0.wq && g1.wk == g0.wk && g1.wv == g0.wv && g1.wo == g0.wo
    &&& g1.gate == g0.gate && g1.up == g0.up && g1.down == g0.down
}

/// Two buffers differ in the gradient of the first norm alone.
pub open spec fn only_attn_norm(g0: BlockBuf, g1: BlockBuf) -> bool {
    &&& g1.ffn_norm == g0.ffn_norm
    &&& g1.wq == g0.wq && g1.wk == g0.wk && g1.wv == g0.wv && g1.wo == g0.wo
    &&& g1.gate == g0.gate && g1.up == g0.up && g1.down == g0.down
}

/// What lies between the two ends of the backward pass of a block.
pub struct BlockBack {
    /// The gradients of the normalised rows.
    pub d_n2: Seq<F32>,
    pub d_n1: Seq<F32>,
    /// The buffer behind the feed-forward part, the second norm and the
    /// attention.
    pub ga: BlockBuf,
    pub gb: BlockBuf,
    pub gc: BlockBuf,
}

/// The gradients of a block are added to a buffer, by way of `t`.
pub open spec fn block_backed_via<M: Math>(
    m: &M,
    b: LlamaBlock,
    rope: Rope,
    c: BlockCache,
    d_out: Seq<F32>,
    seq: int,
    g0: BlockBuf,
    g1: BlockBuf,
    dx: Seq<F32>,
    t: BlockBack,
) -> bool {
    let w1 = b.attn_norm.weight@;
    let w2 = b.ffn_norm.weight@;
    let d_h = add_rows(d_out, norm_rows_dx(t.d_n2, c.h@, w2, c.n2_inv@, seq));
    &&& ffn_backed(m, b.ffn, c.ffn, d_out, seq, g0, t.ga, t.d_n2)
    &&& only_ffn_norm(t.ga, t.gb)
    &&& t.gb.ffn_norm@ == norm_dw(t.d_n2, c.h@, c.n2_inv@, seq, t.ga.ffn_norm@)
    &&& attn_backed(m, b.attn, rope, c.attn, d_h, seq, t.gb, t.gc, t.d_n1)
    &&& only_attn_norm(t.gc, g1)
    &&& g1.attn_norm@ == norm_dw(t.d_n1, c.x@, c.n1_inv@, seq, t.gc.attn_norm@)
    &&& dx == add_rows(d_h, norm_rows_dx(t.d_n1, c.x@, w1, c.n1_inv@, seq))
}

/// The gradients of a block are added to a buffer.
#[verifier::opaque]
pub open spec fn block_backed<M: Math>(
    m: &M,
    b: LlamaBlock,
    rope: Rope,
    c: BlockCache,
    d_out: Seq<F32>,
    seq: int,
    g0: BlockBuf,
    g1: BlockBuf,
    dx: Seq<F32>,
) -> bool {
    exists|t: BlockBack| #[trigger] block_backed_via(m, b, rope, c, d_out, seq, g0, g1, dx, t)
}

/// Adds the gradients of a block to a buffer; the gradient of its rows.
pub(crate) fn block_backward<M: Math>(
    m: &M,
    b: &LlamaBlock,
    rope: &Rope,
    c: &BlockCache,
    d_out: &[F32],
    seq: usize,
    g: &mut BlockBuf,
) -> (dx: Vec<F32>)
    requires
        block_is_plain(*b),
        rope_suits(*rope, *b),
        block_sized(*b, seq as int, *c),
        d_out@.len() == seq * b.dim(),
        old(g).suits(*b),
    ensures
        block_backed(m, *b, *rope, *c, d_out@, seq as int, *old(g), *final(g), dx@),
        final(g).suits(*b),
        dx@.len() == seq * b.dim(),
{
    proof {
        reveal(block_sized);
        reveal(block_backed);
    }
    let ghost g0 = *g;
    let d_n2: Vec<F32> = ffn_backward(m, &b.ffn, &c.ffn, d_out, seq, g);
    let ghost ga = *g;
    let from2: Vec<F32> = norm_backward(
        d_n2.as_slice(),
        c.h.as_slice(),
        b.ffn_norm.weight.as_slice(),
        c.n2_inv.as_slice(),
        seq,
        &mut g.ffn_norm,
    );
    let ghost gb = *g;
    let d_h: Vec<F32> = add_rows_exec(d_out, from2.as_slice());
    let d_n1: Vec<F32> = attn_backward(m, &b.attn, rope, &c.attn, d_h.as_slice(), seq, g);
    let ghost gc = *g;
    let from1: Vec<F32> = norm_backward(
        d_n1.as_slice(),
        c.x.as_slice(),
        b.attn_norm.weight.as_slice(),
        c.n1_inv.as_slice(),
        seq,
        &mut g.attn_norm,
    );
    let dx: Vec<F32> = add_rows_exec(d_h.as_slice(), from1.as_slice());
    proof {
        let t = BlockBack { d_n2: d_n2@, d_n1: d_n1@, ga, gb, gc };
        assert(block_backed_via(m, *b, *rope, *c, d_out@, seq as int, g0, *g, dx@, t));
    }
    dx
}

} // verus!
