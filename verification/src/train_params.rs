//! The parameters of a decoder, and buffers of their shapes, as one list.
use crate::decoder::LlamaModel;
use crate::float::F32;
use crate::layer::Linear;
use crate::llm::LlamaBlock;
use crate::tensor::{copy_f32, zeros};
use crate::train_attention::{rows_view, BlockBuf};
use crate::train_block::block_is_plain;
use crate::train_ops::{is_plain, LinBuf};
use vstd::prelude::*;

verus! {

/// Gradients, or moments of gradients, of a model.
pub struct Buffers {
    pub tok_emb: Vec<F32>,
    pub blocks: Vec<BlockBuf>,
    pub final_norm: Vec<F32>,
    pub lm_head: LinBuf,
}

/// The parameters of a block, in order.
pub open spec fn block_part(b: LlamaBlock, k: int) -> Seq<F32> {
    if k == 0 {
        b.attn_norm.weight@
    } else if k == 1 {
        b.attn.wq.weight.data@
    } else if k == 2 {
        b.attn.wq.bias.data@
    } else if k == 3 {
        b.attn.wk.weight.data@
    } else if k == 4 {
        b.attn.wk.bias.data@
    } else if k == 5 {
        b.attn.wv.weight.data@
    } else if k == 6 {
        b.attn.wv.bias.data@
    } else if k == 7 {
        b.attn.wo.weight.data@
    } else if k == 8 {
        b.attn.wo.bias.data@
    } else if k == 9 {
        b.ffn_norm.weight@
    } else if k == 10 {
        b.ffn.gate.weight.data@
    } else if k == 11 {
        b.ffn.gate.bias.data@
    } else if k == 12 {
        b.ffn.up.weight.data@
    } else if k == 13 {
        b.ffn.up.bias.data@
    } else if k == 14 {
        b.ffn.down.weight.data@
    } else {
        b.ffn.down.bias.data@
    }
}

/// The buffers of a block, in order.
pub open spec fn buffer_part(b: BlockBuf, k: int) -> Seq<F32> {
    if k == 0 {
        b.attn_norm@
    } else if k == 1 {
        b.wq.w@
    } else if k == 2 {
        b.wq.b@
    } else if k == 3 {
        b.wk.w@
    } else if k == 4 {
        b.wk.b@
    } else if k == 5 {
        b.wv.w@
    } else if k == 6 {
        b.wv.b@
    } else if k == 7 {
        b.wo.w@
    } else if k == 8 {
        b.wo.b@
    } else if k == 9 {
        b.ffn_norm@
    } else if k == 10 {
        b.gate.w@
    } else if k == 11 {
        b.gate.b@
    } else if k == 12 {
        b.up.w@
    } else if k == 13 {
        b.up.b@
    } else if k == 14 {
        b.down.w@
    } else {
        b.down.b@
    }
}

/// All parameters of a model, in order: the token vectors, those of the blocks,
/// and those of the head.
pub open spec fn model_parts(m: LlamaModel) -> Seq<Seq<F32>> {
    let n = m.blocks@.len();
    Seq::new(
        4 + 16 * n,
        |i: int|
            if i == 0 {
                m.tok_emb@
            } else if i < 1 + 16 * n {
                block_part(m.blocks@[(i - 1) / 16], (i - 1) % 16)
            } else if i == 1 + 16 * n {
                m.final_norm.weight@
            } else if i == 2 + 16 * n {
                m.lm_head.weight.data@
            } else {
                m.lm_head.bias.data@
            },
    )
}

impl Buffers {
    /// All buffers, in the order of the parameters.
    pub open spec fn parts(self) -> Seq<Seq<F32>> {
        let n = self.blocks@.len();
        Seq::new(
            4 + 16 * n,
            |i: int|
                if i == 0 {
                    self.tok_emb@
                } else if i < 1 + 16 * n {
                    buffer_part(self.blocks@[(i - 1) / 16], (i - 1) % 16)
                } else if i == 1 + 16 * n {
                    self.final_norm@
                } else if i == 2 + 16 * n {
                    self.lm_head.w@
                } else {
                    self.lm_head.b@
                },
        )
    }

    /// The sizes are those of a model.
    pub open spec fn suits(self, m: LlamaModel) -> bool {
        &&& self.tok_emb@.len() == m.tok_emb@.len()
        &&& self.blocks@.len() == m.blocks@.len()
        &&& forall|l: int|
            0 <= l < self.blocks@.len() ==> (#[trigger] self.blocks@[l]).suits(m.blocks@[l])
        &&& self.final_norm@.len() == m.final_norm.weight@.len()
        &&& self.lm_head.suits(m.lm_head)
    }
}

/// Whether a list has the sizes of another.
pub open spec fn same_lens(a: Seq<Seq<F32>>, b: Seq<Seq<F32>>) -> bool {
    &&& a.len() == b.len()
    &&& forall|i: int| 0 <= i < a.len() ==> (#[trigger] a[i]).len() == b[i].len()
}

/// A model whose layers are in full precision.
pub open spec fn params_plain(m: LlamaModel) -> bool {
    &&& m.fits()
    &&& is_plain(m.lm_head)
    &&& forall|l: int| 0 <= l < m.blocks@.len() ==> block_is_plain(#[trigger] m.blocks@[l])
}

/// Buffers that suit a model have parts of the sizes of its parameters.
pub(crate) proof fn lemma_suits(g: Buffers, m: LlamaModel)
    requires
        params_plain(m),
        g.suits(m),
    ensures
        same_lens(g.parts(), model_parts(m)),
{
    let n = m.blocks@.len();
    assert forall|i: int| 0 <= i < g.parts().len() implies (#[trigger] g.parts()[i]).len()
        == model_parts(m)[i].len() by {
        if 0 < i < 1 + 16 * n {
            let l = (i - 1) / 16;
            assert(g.blocks@[l].suits(m.blocks@[l]));
            assert(block_is_plain(m.blocks@[l]));
        }
    }
}

// ---------------------------------------------------------------------------
// Zero buffers
// ---------------------------------------------------------------------------

/// Zeros of a length.
pub open spec fn zeros_of(n: nat) -> Seq<F32> {
    Seq::new(n, |i: int| F32 { bits: 0 })
}

/// Whether all elements of a list are zero.
pub open spec fn all_zero(p: Seq<Seq<F32>>) -> bool {
    forall|i: int| 0 <= i < p.len() ==> #[trigger] p[i] == zeros_of(p[i].len())
}

fn lin_zeros(l: &Linear) -> (g: LinBuf)
    requires
        l.fits(),
    ensures
        g.suits(*l),
        g.w@ == zeros_of(g.w@.len()),
        g.b@ == zeros_of(g.b@.len()),
{
    let g: LinBuf = LinBuf { w: zeros(l.in_f * l.out_f), b: zeros(l.out_f) };
    assert(g.w@ =~= zeros_of(g.w@.len()));
    assert(g.b@ =~= zeros_of(g.b@.len()));
    g
}

/// Whether all buffers of a block are zero.
pub open spec fn block_zero(b: BlockBuf) -> bool {
    forall|k: int|
        0 <= k < 16 ==> #[trigger] buffer_part(b, k) == zeros_of(buffer_part(b, k).len())
}

fn block_zeros(b: &LlamaBlock) -> (g: BlockBuf)
    requires
        b.fits(),
    ensures
        g.suits(*b),
        block_zero(g),
{
    let attn_norm: Vec<F32> = zeros(b.attn_norm.weight.len());
    let ffn_norm: Vec<F32> = zeros(b.ffn_norm.weight.len());
    assert(attn_norm@ =~= zeros_of(attn_norm@.len()));
    assert(ffn_norm@ =~= zeros_of(ffn_norm@.len()));
    BlockBuf {
        attn_norm,
        wq: lin_zeros(&b.attn.wq),
        wk: lin_zeros(&b.attn.wk),
        wv: lin_zeros(&b.attn.wv),
        wo: lin_zeros(&b.attn.wo),
        ffn_norm,
        gate: lin_zeros(&b.ffn.gate),
        up: lin_zeros(&b.ffn.up),
        down: lin_zeros(&b.ffn.down),
    }
}

impl Buffers {
    /// Zeros of the sizes of a model.
    pub fn zeros(m: &LlamaModel) -> (g: Buffers)
        requires
            m.fits(),
        ensures
            g.suits(*m),
            all_zero(g.parts()),
    {
        let mut blocks: Vec<BlockBuf> = Vec::new();
        let mut i: usize = 0;
        while i < m.blocks.len()
            invariant
                m.fits(),
                i <= m.blocks@.len(),
                blocks@.len() == i,
                forall|l: int|
                    0 <= l < i ==> (#[trigger] blocks@[l]).suits(m.blocks@[l]) && block_zero(
                        blocks@[l],
                    ),
            decreases m.blocks@.len() - i,
        {
            assert(m.blocks@[i as int].fits());
            blocks.push(block_zeros(&m.blocks[i]));
            i = i + 1;
        }
        let tok_emb: Vec<F32> = zeros(m.tok_emb.len());
        let final_norm: Vec<F32> = zeros(m.final_norm.weight.len());
        assert(tok_emb@ =~= zeros_of(tok_emb@.len()));
        assert(final_norm@ =~= zeros_of(final_norm@.len()));
        let g: Buffers = Buffers { tok_emb, blocks, final_norm, lm_head: lin_zeros(&m.lm_head) };
        proof {
            let n = g.blocks@.len();
            assert forall|i: int| 0 <= i < g.parts().len() implies #[trigger] g.parts()[i]
                == zeros_of(g.parts()[i].len()) by {
                if 0 < i < 1 + 16 * n {
                    let l = (i - 1) / 16;
                    assert(block_zero(g.blocks@[l]));
                    assert(buffer_part(g.blocks@[l], (i - 1) % 16) == zeros_of(
                        buffer_part(g.blocks@[l], (i - 1) % 16).len(),
                    ));
                }
            }
        }
        g
    }
}

// ---------------------------------------------------------------------------
// To a list
// ---------------------------------------------------------------------------

fn push_buffers(out: &mut Vec<Vec<F32>>, b: &BlockBuf)
    ensures
        final(out)@.len() == old(out)@.len() + 16,
        forall|i: int| 0 <= i < old(out)@.len() ==> #[trigger] final(out)@[i] == old(out)@[i],
        forall|i: int|
            old(out)@.len() <= i < final(out)@.len() ==> (#[trigger] final(out)@[i])@ == buffer_part(
                *b,
                i - old(out)@.len(),
            ),
{
    out.push(copy_f32(b.attn_norm.as_slice()));
    out.push(copy_f32(b.wq.w.as_slice()));
    out.push(copy_f32(b.wq.b.as_slice()));
    out.push(copy_f32(b.wk.w.as_slice()));
    out.push(copy_f32(b.wk.b.as_slice()));
    out.push(copy_f32(b.wv.w.as_slice()));
    out.push(copy_f32(b.wv.b.as_slice()));
    out.push(copy_f32(b.wo.w.as_slice()));
    out.push(copy_f32(b.wo.b.as_slice()));
    out.push(copy_f32(b.ffn_norm.as_slice()));
    out.push(copy_f32(b.gate.w.as_slice()));
    out.push(copy_f32(b.gate.b.as_slice()));
    out.push(copy_f32(b.up.w.as_slice()));
    out.push(copy_f32(b.up.b.as_slice()));
    out.push(copy_f32(b.down.w.as_slice()));
    out.push(copy_f32(b.down.b.as_slice()));
}

fn push_params(out: &mut Vec<Vec<F32>>, b: &LlamaBlock)
    ensures
        final(out)@.len() == old(out)@.len() + 16,
        forall|i: int| 0 <= i < old(out)@.len() ==> #[trigger] final(out)@[i] == old(out)@[i],
        forall|i: int|
            old(out)@.len() <= i < final(out)@.len() ==> (#[trigger] final(out)@[i])@ == block_part(
                *b,
                i - old(out)@.len(),
            ),
{
    out.push(copy_f32(b.attn_norm.weight.as_slice()));
    out.push(copy_f32(b.attn.wq.weight.data.as_slice()));
    out.push(copy_f32(b.attn.wq.bias.data.as_slice()));
    out.push(copy_f32(b.attn.wk.weight.data.as_slice()));
    out.push(copy_f32(b.attn.wk.bias.data.as_slice()));
    out.push(copy_f32(b.attn.wv.weight.data.as_slice()));
    out.push(copy_f32(b.attn.wv.bias.data.as_slice()));
    out.push(copy_f32(b.attn.wo.weight.data.as_slice()));
    out.push(copy_f32(b.attn.wo.bias.data.as_slice()));
    out.push(copy_f32(b.ffn_norm.weight.as_slice()));
    out.push(copy_f32(b.ffn.gate.weight.data.as_slice()));
    out.push(copy_f32(b.ffn.gate.bias.data.as_slice()));
    out.push(copy_f32(b.ffn.up.weight.data.as_slice()));
    out.push(copy_f32(b.ffn.up.bias.data.as_slice()));
    out.push(copy_f32(b.ffn.down.weight.data.as_slice()));
    out.push(copy_f32(b.ffn.down.bias.data.as_slice()));
}

impl Buffers {
    /// All buffers, in the order of the parameters.
    pub fn to_parts(&self) -> (out: Vec<Vec<F32>>)
        ensures
            rows_view(out@) == self.parts(),
    {
        let ghost goal = self.parts();
        let mut out: Vec<Vec<F32>> = Vec::new();
        out.push(copy_f32(self.tok_emb.as_slice()));
        let mut l: usize = 0;
        while l < self.blocks.len()
            invariant
                goal == self.parts(),
                l <= self.blocks@.len(),
                out@.len() == 1 + 16 * l,
                forall|i: int| 0 <= i < out@.len() ==> (#[trigger] out@[i])@ == goal[i],
            decreases self.blocks@.len() - l,
        {
            let ghost before = out@;
            push_buffers(&mut out, &self.blocks[l]);
            proof {
                assert forall|i: int| 0 <= i < out@.len() implies (#[trigger] out@[i])@ == goal[i] by {
                    if i < before.len() {
                        assert(out@[i] == before[i]);
                    } else {
                        assert((i - 1) / 16 == l && (i - 1) % 16 == i - before.len());
                    }
                }
            }
            l = l + 1;
        }
        out.push(copy_f32(self.final_norm.as_slice()));
        out.push(copy_f32(self.lm_head.w.as_slice()));
        out.push(copy_f32(self.lm_head.b.as_slice()));
        assert(rows_view(out@) =~= goal);
        out
    }
}

/// All parameters of a model, in order.
pub fn model_parts_exec(m: &LlamaModel) -> (out: Vec<Vec<F32>>)
    ensures
        rows_view(out@) == model_parts(*m),
{
    let ghost goal = model_parts(*m);
    let mut out: Vec<Vec<F32>> = Vec::new();
    out.push(copy_f32(m.tok_emb.as_slice()));
    let mut l: usize = 0;
    while l < m.blocks.len()
        invariant
            goal == model_parts(*m),
            l <= m.blocks@.len(),
            out@.len() == 1 + 16 * l,
            forall|i: int| 0 <= i < out@.len() ==> (#[trigger] out@[i])@ == goal[i],
        decreases m.blocks@.len() - l,
    {
        let ghost before = out@;
        push_params(&mut out, &m.blocks[l]);
        proof {
            assert forall|i: int| 0 <= i < out@.len() implies (#[trigger] out@[i])@ == goal[i] by {
                if i < before.len() {
                    assert(out@[i] == before[i]);
                } else {
                    assert((i - 1) / 16 == l && (i - 1) % 16 == i - before.len());
                }
            }
        }
        l = l + 1;
    }
    out.push(copy_f32(m.final_norm.weight.as_slice()));
    out.push(copy_f32(m.lm_head.weight.data.as_slice()));
    out.push(copy_f32(m.lm_head.bias.data.as_slice()));
    assert(rows_view(out@) =~= goal);
    out
}

// ---------------------------------------------------------------------------
// From a list
// ---------------------------------------------------------------------------

/// A linear layer with other numbers.
pub open spec fn same_linear(a: Linear, b: Linear) -> bool {
    &&& b.in_f == a.in_f
    &&& b.out_f == a.out_f
    &&& b.quant == a.quant
    &&& b.weight.shape == a.weight.shape
    &&& b.bias.shape == a.bias.shape
    &&& b.weight.data@.len() == a.weight.data@.len()
    &&& b.bias.data@.len() == a.bias.data@.len()
}

/// A block with other numbers.
pub open spec fn same_block(a: LlamaBlock, b: LlamaBlock) -> bool {
    &&& b.attn_norm.eps == a.attn_norm.eps
    &&& b.attn_norm.weight@.len() == a.attn_norm.weight@.len()
    &&& b.ffn_norm.eps == a.ffn_norm.eps
    &&& b.ffn_norm.weight@.len() == a.ffn_norm.weight@.len()
    &&& same_linear(a.attn.wq, b.attn.wq)
    &&& same_linear(a.attn.wk, b.attn.wk)
    &&& same_linear(a.attn.wv, b.attn.wv)
    &&& same_linear(a.attn.wo, b.attn.wo)
    &&& b.attn.n_heads == a.attn.n_heads
    &&& b.attn.n_kv_heads == a.attn.n_kv_heads
    &&& b.attn.head_dim == a.attn.head_dim
    &&& b.attn.rope_dim == a.attn.rope_dim
    &&& b.attn.rope_base == a.attn.rope_base
    &&& b.attn.rope_type == a.attn.rope_type
    &&& same_linear(a.ffn.gate, b.ffn.gate)
    &&& same_linear(a.ffn.up, b.ffn.up)
    &&& same_linear(a.ffn.down, b.ffn.down)
}

/// A model with other numbers.
pub open spec fn same_model(a: LlamaModel, b: LlamaModel) -> bool {
    &&& b.cfg == a.cfg
    &&& b.tok_emb@.len() == a.tok_emb@.len()
    &&& b.blocks@.len() == a.blocks@.len()
    &&& forall|l: int|
        0 <= l < a.blocks@.len() ==> same_block(a.blocks@[l], #[trigger] b.blocks@[l])
    &&& b.final_norm.eps == a.final_norm.eps
    &&& b.final_norm.weight@.len() == a.final_norm.weight@.len()
    &&& same_linear(a.lm_head, b.lm_head)
}

/// Other numbers leave a model in full precision and in order.
pub(crate) proof fn lemma_same_model(a: LlamaModel, b: LlamaModel)
    requires
        params_plain(a),
        same_model(a, b),
    ensures
        params_plain(b),
{
    assert forall|l: int| 0 <= l < b.blocks@.len() implies block_is_plain(#[trigger] b.blocks@[l])
        && b.blocks@[l].fits() && b.blocks@[l].dim() == b.cfg.model_dim by {
        assert(same_block(a.blocks@[l], b.blocks@[l]));
        assert(block_is_plain(a.blocks@[l]));
        assert(a.blocks@[l].fits() && a.blocks@[l].dim() == a.cfg.model_dim);
    }
}

fn load_linear(l: &mut Linear, w: &Vec<F32>, b: &Vec<F32>)
    requires
        w@.len() == old(l).weight.data@.len(),
        b@.len() == old(l).bias.data@.len(),
    ensures
        same_linear(*old(l), *final(l)),
        final(l).weight.data@ == w@,
        final(l).bias.data@ == b@,
{
    l.weight.data = copy_f32(w.as_slice());
    l.bias.data = copy_f32(b.as_slice());
}

fn load_block(blk: &mut LlamaBlock, p: &Vec<Vec<F32>>, at: usize)
    requires
        at + 16 <= p@.len(),
        forall|k: int|
            0 <= k < 16 ==> (#[trigger] p@[at + k])@.len() == block_part(*old(blk), k).len(),
    ensures
        same_block(*old(blk), *final(blk)),
        forall|k: int| 0 <= k < 16 ==> #[trigger] block_part(*final(blk), k) == p@[at + k]@,
{
    let total: usize = p.len();
    proof {
        assert(p@[at + 0]@.len() == block_part(*old(blk), 0).len());
        assert(p@[at + 1]@.len() == block_part(*old(blk), 1).len());
        assert(p@[at + 2]@.len() == block_part(*old(blk), 2).len());
        assert(p@[at + 3]@.len() == block_part(*old(blk), 3).len());
        assert(p@[at + 4]@.len() == block_part(*old(blk), 4).len());
        assert(p@[at + 5]@.len() == block_part(*old(blk), 5).len());
        assert(p@[at + 6]@.len() == block_part(*old(blk), 6).len());
        assert(p@[at + 7]@.len() == block_part(*old(blk), 7).len());
        assert(p@[at + 8]@.len() == block_part(*old(blk), 8).len());
        assert(p@[at + 9]@.len() == block_part(*old(blk), 9).len());
        assert(p@[at + 10]@.len() == block_part(*old(blk), 10).len());
        assert(p@[at + 11]@.len() == block_part(*old(blk), 11).len());
        assert(p@[at + 12]@.len() == block_part(*old(blk), 12).len());
        assert(p@[at + 13]@.len() == block_part(*old(blk), 13).len());
        assert(p@[at + 14]@.len() == block_part(*old(blk), 14).len());
        assert(p@[at + 15]@.len() == block_part(*old(blk), 15).len());
    }
    blk.attn_norm.weight = copy_f32(p[at].as_slice());
    load_linear(&mut blk.attn.wq, &p[at + 1], &p[at + 2]);
    load_linear(&mut blk.attn.wk, &p[at + 3], &p[at + 4]);
    load_linear(&mut blk.attn.wv, &p[at + 5], &p[at + 6]);
    load_linear(&mut blk.attn.wo, &p[at + 7], &p[at + 8]);
    blk.ffn_norm.weight = copy_f32(p[at + 9].as_slice());
    load_linear(&mut blk.ffn.gate, &p[at + 10], &p[at + 11]);
    load_linear(&mut blk.ffn.up, &p[at + 12], &p[at + 13]);
    load_linear(&mut blk.ffn.down, &p[at + 14], &p[at + 15]);
}

/// Gives a model other parameters of the same sizes.
pub fn load_model(m: &mut LlamaModel, p: &Vec<Vec<F32>>)
    requires
        same_lens(rows_view(p@), model_parts(*old(m))),
    ensures
        same_model(*old(m), *final(m)),
        model_parts(*final(m)) == rows_view(p@),
{
    let ghost m0 = *m;
    let ghost all = rows_view(p@);
    let ghost parts0 = model_parts(m0);
    let n: usize = m.blocks.len();
    proof {
        assert(all.len() == p@.len());
        assert(all[0].len() == parts0[0].len());
        assert(all[1 + 16 * n].len() == parts0[1 + 16 * n].len());
        assert(all[2 + 16 * n].len() == parts0[2 + 16 * n].len());
        assert(all[3 + 16 * n].len() == parts0[3 + 16 * n].len());
    }
    let total: usize = p.len();
    m.tok_emb = copy_f32(p[0].as_slice());
    let mut l: usize = 0;
    while l < n
        invariant
            n == m0.blocks@.len() == m.blocks@.len(),
            total == p@.len() == 4 + 16 * n,
            all == rows_view(p@),
            parts0 == model_parts(m0),
            same_lens(all, parts0),
            l <= n,
            m.cfg == m0.cfg,
            m.tok_emb@ == all[0],
            m.final_norm == m0.final_norm,
            m.lm_head == m0.lm_head,
            forall|j: int| l <= j < n ==> #[trigger] m.blocks@[j] == m0.blocks@[j],
            forall|j: int| 0 <= j < l ==> same_block(m0.blocks@[j], #[trigger] m.blocks@[j]),
            forall|j: int, k: int|
                0 <= j < l && 0 <= k < 16 ==> #[trigger] block_part(m.blocks@[j], k) == all[1 + 16
                    * j + k],
        decreases n - l,
    {
        let at: usize = 1 + 16 * l;
        let ghost before = m.blocks@;
        proof {
            assert forall|k: int| 0 <= k < 16 implies (#[trigger] p@[at + k])@.len() == block_part(
                m.blocks@[l as int],
                k,
            ).len() by {
                let i = at + k;
                assert((i - 1) / 16 == l && (i - 1) % 16 == k);
                assert(all[i].len() == parts0[i].len());
                assert(all[i] == p@[i]@);
            }
        }
        load_block(&mut m.blocks[l], p, at);
        proof {
            assert forall|j: int, k: int| 0 <= j < l + 1 && 0 <= k < 16 implies #[trigger] block_part(
                m.blocks@[j],
                k,
            ) == all[1 + 16 * j + k] by {
                if j < l {
                    assert(m.blocks@[j] == before[j]);
                    assert(block_part(before[j], k) == all[1 + 16 * j + k]);
                } else {
                    assert(all[at + k] == p@[at + k]@);
                }
            }
            assert forall|j: int| 0 <= j < l + 1 implies same_block(
                m0.blocks@[j],
                #[trigger] m.blocks@[j],
            ) by {
                if j < l {
                    assert(m.blocks@[j] == before[j]);
                }
            }
        }
        l = l + 1;
    }
    m.final_norm.weight = copy_f32(p[total - 3].as_slice());
    load_linear(&mut m.lm_head, &p[total - 2], &p[total - 1]);
    proof {
        let parts = model_parts(*m);
        assert forall|i: int| 0 <= i < parts.len() implies #[trigger] parts[i] == all[i] by {
            if 0 < i < 1 + 16 * n {
                let j = (i - 1) / 16;
                let k = (i - 1) % 16;
                assert(block_part(m.blocks@[j], k) == all[1 + 16 * j + k]);
            }
        }
        assert(parts =~= all);
    }
}

fn load_lin_buf(g: &mut LinBuf, w: &Vec<F32>, b: &Vec<F32>)
    ensures
        final(g).w@ == w@,
        final(g).b@ == b@,
{
    g.w = copy_f32(w.as_slice());
    g.b = copy_f32(b.as_slice());
}

fn load_buffer(g: &mut BlockBuf, p: &Vec<Vec<F32>>, at: usize)
    requires
        at + 16 <= p@.len(),
    ensures
        forall|k: int| 0 <= k < 16 ==> #[trigger] buffer_part(*final(g), k) == p@[at + k]@,
{
    let total: usize = p.len();
    g.attn_norm = copy_f32(p[at].as_slice());
    load_lin_buf(&mut g.wq, &p[at + 1], &p[at + 2]);
    load_lin_buf(&mut g.wk, &p[at + 3], &p[at + 4]);
    load_lin_buf(&mut g.wv, &p[at + 5], &p[at + 6]);
    load_lin_buf(&mut g.wo, &p[at + 7], &p[at + 8]);
    g.ffn_norm = copy_f32(p[at + 9].as_slice());
    load_lin_buf(&mut g.gate, &p[at + 10], &p[at + 11]);
    load_lin_buf(&mut g.up, &p[at + 12], &p[at + 13]);
    load_lin_buf(&mut g.down, &p[at + 14], &p[at + 15]);
}

/// Buffers whose parts have the sizes of parameters suit the model.
pub(crate) proof fn lemma_parts_suit(g: Buffers, m: LlamaModel)
    requires
        params_plain(m),
        g.blocks@.len() == m.blocks@.len(),
        same_lens(g.parts(), model_parts(m)),
    ensures
        g.suits(m),
{
    let n = m.blocks@.len() as int;
    let a = g.parts();
    let b = model_parts(m);
    assert(a[0].len() == b[0].len());
    assert(a[1 + 16 * n].len() == b[1 + 16 * n].len());
    assert(a[2 + 16 * n].len() == b[2 + 16 * n].len());
    assert(a[3 + 16 * n].len() == b[3 + 16 * n].len());
    assert forall|l: int| 0 <= l < n implies (#[trigger] g.blocks@[l]).suits(m.blocks@[l]) by {
        assert(block_is_plain(m.blocks@[l]));
        assert forall|k: int| 0 <= k < 16 implies #[trigger] buffer_part(g.blocks@[l], k).len()
            == block_part(m.blocks@[l], k).len() by {
            let i = 1 + 16 * l + k;
            assert((i - 1) / 16 == l && (i - 1) % 16 == k);
            assert(a[i].len() == b[i].len());
        }
        lemma_block_suits(g.blocks@[l], m.blocks@[l]);
    }
}

proof fn lemma_block_suits(g: BlockBuf, b: LlamaBlock)
    requires
        block_is_plain(b),
        forall|k: int|
            0 <= k < 16 ==> #[trigger] buffer_part(g, k).len() == block_part(b, k).len(),
    ensures
        g.suits(b),
{
    assert(buffer_part(g, 0).len() == block_part(b, 0).len());
    assert(buffer_part(g, 1).len() == block_part(b, 1).len());
    assert(buffer_part(g, 2).len() == block_part(b, 2).len());
    assert(buffer_part(g, 3).len() == block_part(b, 3).len());
    assert(buffer_part(g, 4).len() == block_part(b, 4).len());
    assert(buffer_part(g, 5).len() == block_part(b, 5).len());
    assert(buffer_part(g, 6).len() == block_part(b, 6).len());
    assert(buffer_part(g, 7).len() == block_part(b, 7).len());
    assert(buffer_part(g, 8).len() == block_part(b, 8).len());
    assert(buffer_part(g, 9).len() == block_part(b, 9).len());
    assert(buffer_part(g, 10).len() == block_part(b, 10).len());
    assert(buffer_part(g, 11).len() == block_part(b, 11).len());
    assert(buffer_part(g, 12).len() == block_part(b, 12).len());
    assert(buffer_part(g, 13).len() == block_part(b, 13).len());
    assert(buffer_part(g, 14).len() == block_part(b, 14).len());
    assert(buffer_part(g, 15).len() == block_part(b, 15).len());
}

impl Buffers {
    /// Gives buffers other numbers.
    pub fn load_parts(&mut self, p: &Vec<Vec<F32>>)
        requires
            p@.len() == old(self).parts().len(),
        ensures
            final(self).blocks@.len() == old(self).blocks@.len(),
            final(self).parts() == rows_view(p@),
    {
        let ghost all = rows_view(p@);
        let n: usize = self.blocks.len();
        let total: usize = p.len();
        self.tok_emb = copy_f32(p[0].as_slice());
        let mut l: usize = 0;
        while l < n
            invariant
                n == self.blocks@.len(),
                total == p@.len() == 4 + 16 * n,
                all == rows_view(p@),
                l <= n,
                self.tok_emb@ == all[0],
                forall|j: int, k: int|
                    0 <= j < l && 0 <= k < 16 ==> #[trigger] buffer_part(self.blocks@[j], k)
                        == all[1 + 16 * j + k],
            decreases n - l,
        {
            let at: usize = 1 + 16 * l;
            let ghost before = self.blocks@;
            load_buffer(&mut self.blocks[l], p, at);
            proof {
                assert forall|j: int, k: int|
                    0 <= j < l + 1 && 0 <= k < 16 implies #[trigger] buffer_part(
                    self.blocks@[j],
                    k,
                ) == all[1 + 16 * j + k] by {
                    if j < l {
                        assert(self.blocks@[j] == before[j]);
                        assert(buffer_part(before[j], k) == all[1 + 16 * j + k]);
                    } else {
                        assert(all[at + k] == p@[at + k]@);
                    }
                }
            }
            l = l + 1;
        }
        self.final_norm = copy_f32(p[total - 3].as_slice());
        load_lin_buf(&mut self.lm_head, &p[total - 2], &p[total - 1]);
        proof {
            let parts = self.parts();
            assert forall|i: int| 0 <= i < parts.len() implies #[trigger] parts[i] == all[i] by {
                if 0 < i < 1 + 16 * n {
                    let j = (i - 1) / 16;
                    let k = (i - 1) % 16;
                    assert(buffer_part(self.blocks@[j], k) == all[1 + 16 * j + k]);
                }
            }
            assert(parts =~= all);
        }
    }
}

} // verus!
