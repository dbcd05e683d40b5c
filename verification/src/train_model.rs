//! The loss of a decoder on a run of tokens, and the gradients of its
//! parameters.
use crate::decoder::{LlamaConfig, LlamaModel};
use crate::error::{InferError, Result};
use crate::float::{of_int, F32};
use crate::index::{cell, lemma_cell, lemma_row, lemma_split};
use crate::llm::LlamaBlock;
use crate::loss::negated_all;
use crate::math::{is_ln, Math};
use crate::ops::{append_row, is_softmax, mismatch, row_of, softmax, sum, sum_of};
use crate::tensor::zeros;
use crate::train_block::{
    block_backed, block_backward, block_forward, block_forwarded, block_holds, block_is_plain,
    block_out, block_sized, rope_suits, BlockCache,
};
use crate::train_ops::{
    affine, affine_adds, affine_dx, lemma_unsplit, lin_backward, lin_forward, norm_backward,
    norm_dw, norm_forward, norm_rows_dx, rms_invs, rms_rows, Rope,
};
use crate::train_attention::BlockBuf;
use crate::train_params::{all_zero, params_plain, Buffers};
use vstd::prelude::*;
use vstd::slice::slice_subrange;

verus! {

/// What the forward pass of a model leaves behind.
pub struct FwdCache {
    pub blocks: Vec<BlockCache>,
    /// The rows behind the last block.
    pub xfinal: Vec<F32>,
    pub nf_inv: Vec<F32>,
    /// The input rows of the head.
    pub xn: Vec<F32>,
    pub logits: Vec<F32>,
}

/// The settings of rotary positions of a model.
pub open spec fn rope_of(cfg: LlamaConfig) -> Rope {
    Rope {
        head_dim: cfg.head_dim,
        rope_dim: cfg.rope_dim,
        base: cfg.rope_base,
        kind: cfg.rope_type,
    }
}

/// A configuration says the numbers of heads of a block, and its inner width.
pub open spec fn block_configured(c: LlamaConfig, b: LlamaBlock) -> bool {
    &&& b.attn.n_heads == c.n_heads
    &&& b.attn.n_kv_heads == c.n_kv_heads
    &&& b.ffn.gate.out_f == c.ffn_dim
}

/// A model that can be trained: its layers are in full precision, and its
/// configuration says what they are.
pub open spec fn trains(m: LlamaModel) -> bool {
    &&& params_plain(m)
    &&& forall|l: int|
        0 <= l < m.blocks@.len() ==> rope_suits(rope_of(m.cfg), #[trigger] m.blocks@[l])
    &&& forall|l: int|
        0 <= l < m.blocks@.len() ==> block_configured(m.cfg, #[trigger] m.blocks@[l])
}

/// Whether the rows of a run of tokens can be held.
pub open spec fn holds_run(m: LlamaModel, seq: int) -> bool {
    &&& seq * m.cfg.model_dim <= usize::MAX
    &&& seq * m.cfg.vocab_size <= usize::MAX
    &&& forall|l: int| 0 <= l < m.blocks@.len() ==> block_holds(#[trigger] m.blocks@[l], seq)
}

// ---------------------------------------------------------------------------
// Forward
// ---------------------------------------------------------------------------

/// The vectors of tokens, row by row.
pub open spec fn embedded(m: LlamaModel, tokens: Seq<usize>) -> Seq<F32> {
    let d = m.cfg.model_dim as int;
    Seq::new(
        (tokens.len() * d) as nat,
        |e: int| m.tok_emb@[cell(tokens[e / d] as int, e % d, d)],
    )
}

/// The input rows of block `l`.
pub open spec fn block_input(
    m: LlamaModel,
    tokens: Seq<usize>,
    c: Seq<BlockCache>,
    l: int,
) -> Seq<F32> {
    if l <= 0 {
        embedded(m, tokens)
    } else {
        block_out(m.blocks@[l - 1], c[l - 1], tokens.len() as int)
    }
}

/// The seed of the mask of block `l`.
pub open spec fn block_seed(seed: u64, l: int) -> u64 {
    ((seed + l + 1) % 0x1_0000_0000_0000_0000) as u64
}

/// The first `n` caches are those of a run of tokens.
pub open spec fn blocks_forwarded<M: Math>(
    math: &M,
    m: LlamaModel,
    tokens: Seq<usize>,
    dropout: F32,
    seed: u64,
    c: Seq<BlockCache>,
    n: int,
) -> bool {
    forall|l: int|
        0 <= l < n ==> block_forwarded(
            math,
            m.blocks@[l],
            rope_of(m.cfg),
            m.cfg.norm_eps,
            block_input(m, tokens, c, l),
            tokens.len() as int,
            dropout,
            block_seed(seed, l),
            #[trigger] c[l],
        )
}

/// The cache is that of a run of tokens.
pub open spec fn forwarded<M: Math>(
    math: &M,
    m: LlamaModel,
    tokens: Seq<usize>,
    dropout: F32,
    seed: u64,
    c: FwdCache,
) -> bool {
    let seq = tokens.len() as int;
    let n = m.blocks@.len() as int;
    let w = m.final_norm.weight@;
    &&& c.blocks@.len() == n
    &&& blocks_forwarded(math, m, tokens, dropout, seed, c.blocks@, n)
    &&& c.xfinal@ == block_input(m, tokens, c.blocks@, n)
    &&& c.nf_inv@ == rms_invs(c.xfinal@, w.len() as int, m.cfg.norm_eps, seq)
    &&& c.xn@ == rms_rows(c.xfinal@, w, m.cfg.norm_eps, seq)
    &&& c.logits@ == affine(m.lm_head, c.xn@, seq)
}

/// The sizes of a cache.
pub open spec fn run_sized(m: LlamaModel, seq: int, c: FwdCache) -> bool {
    &&& c.blocks@.len() == m.blocks@.len()
    &&& forall|l: int|
        0 <= l < c.blocks@.len() ==> block_sized(m.blocks@[l], seq, #[trigger] c.blocks@[l])
    &&& c.xfinal@.len() == seq * m.cfg.model_dim
    &&& c.xn@.len() == seq * m.cfg.model_dim
    &&& c.nf_inv@.len() == seq
    &&& c.logits@.len() == seq * m.cfg.vocab_size
}

/// Whether a product can be held.
fn product_fits(a: usize, b: usize) -> (r: bool)
    ensures
        r == (a * b <= usize::MAX),
{
    match a.checked_mul(b) {
        Some(_) => true,
        None => false,
    }
}

/// Whether the rows of a run of tokens can be held.
fn holds_exec(m: &LlamaModel, seq: usize) -> (r: bool)
    requires
        trains(*m),
    ensures
        r == holds_run(*m, seq as int),
{
    if !product_fits(seq, m.cfg.model_dim) || !product_fits(seq, m.cfg.vocab_size) {
        return false;
    }
    let mut l: usize = 0;
    while l < m.blocks.len()
        invariant
            trains(*m),
            l <= m.blocks@.len(),
            seq * m.cfg.model_dim <= usize::MAX,
            seq * m.cfg.vocab_size <= usize::MAX,
            forall|k: int| 0 <= k < l ==> block_holds(#[trigger] m.blocks@[k], seq as int),
        decreases m.blocks@.len() - l,
    {
        proof {
            assert(block_is_plain(m.blocks@[l as int]));
            assert(m.blocks@[l as int].fits());
        }
        let b = &m.blocks[l];
        let ok: bool = product_fits(seq, b.attn.wq.in_f) && product_fits(seq, b.attn.wq.out_f)
            && product_fits(seq, b.attn.wk.out_f) && product_fits(seq, b.attn.n_heads)
            && product_fits(seq, b.ffn.gate.out_f);
        assert(ok == block_holds(m.blocks@[l as int], seq as int));
        if !ok {
            return false;
        }
        l = l + 1;
    }
    true
}

/// The vectors of tokens, row by row.
fn embed(m: &LlamaModel, tokens: &[usize]) -> (x: Vec<F32>)
    requires
        m.fits(),
        m.knows_all(tokens@),
    ensures
        x@ == embedded(*m, tokens@),
        x@.len() == tokens@.len() * m.cfg.model_dim,
{
    let d: usize = m.cfg.model_dim;
    let total: usize = m.tok_emb.len();
    let ghost goal = embedded(*m, tokens@);
    let mut x: Vec<F32> = Vec::new();
    let mut t: usize = 0;
    assert(0 * d == 0) by (nonlinear_arith);
    while t < tokens.len()
        invariant
            m.fits(),
            m.knows_all(tokens@),
            t <= tokens@.len(),
            d == m.cfg.model_dim,
            total == m.tok_emb@.len() == m.cfg.vocab_size * d,
            goal == embedded(*m, tokens@),
            goal.len() == tokens@.len() * d,
            x@.len() == t * d,
            forall|e: int| 0 <= e < x@.len() ==> #[trigger] x@[e] == goal[e],
        decreases tokens@.len() - t,
    {
        let tok: usize = tokens[t];
        proof {
            assert(tokens@[t as int] < m.cfg.vocab_size);
            lemma_row(tok as int, m.cfg.vocab_size as int, d as int);
            lemma_row(t as int, tokens@.len() as int, d as int);
        }
        let base: usize = tok * d;
        let ghost before = x@;
        append_row(&mut x, slice_subrange(m.tok_emb.as_slice(), base, base + d));
        proof {
            assert forall|e: int| 0 <= e < x@.len() implies #[trigger] x@[e] == goal[e] by {
                if e < before.len() {
                    assert(x@[e] == before[e]);
                } else {
                    lemma_unsplit(t as int, e - t * d, d as int);
                }
            }
        }
        t = t + 1;
    }
    assert(x@ =~= goal);
    x
}

/// Whether a model knows all tokens.
fn knows_exec(m: &LlamaModel, tokens: &[usize]) -> (r: bool)
    ensures
        r == m.knows_all(tokens@),
{
    let mut i: usize = 0;
    while i < tokens.len()
        invariant
            i <= tokens@.len(),
            forall|k: int| 0 <= k < i ==> #[trigger] tokens@[k] < m.cfg.vocab_size,
        decreases tokens@.len() - i,
    {
        if tokens[i] >= m.cfg.vocab_size {
            assert(tokens@[i as int] >= m.cfg.vocab_size);
            return false;
        }
        i = i + 1;
    }
    true
}

/// The settings of rotary positions of a model.
fn rope_exec(cfg: &LlamaConfig) -> (r: Rope)
    ensures
        r == rope_of(*cfg),
{
    Rope {
        head_dim: cfg.head_dim,
        rope_dim: cfg.rope_dim,
        base: cfg.rope_base,
        kind: cfg.rope_type,
    }
}

/// The model on a run of tokens.
pub fn forward_train<M: Math>(
    math: &M,
    m: &LlamaModel,
    tokens: &[usize],
    dropout: F32,
    seed: u64,
) -> (r: Result<FwdCache>)
    requires
        trains(*m),
    ensures
        match r {
            Ok(c) => {
                &&& m.knows_all(tokens@)
                &&& holds_run(*m, tokens@.len() as int)
                &&& forwarded(math, *m, tokens@, dropout, seed, c)
                &&& run_sized(*m, tokens@.len() as int, c)
            },
            Err(e) => e is DimMismatch && !(m.knows_all(tokens@) && holds_run(
                *m,
                tokens@.len() as int,
            )),
        },
{
    let seq: usize = tokens.len();
    if !knows_exec(m, tokens) {
        return Err(InferError::DimMismatch("a token is not in the vocabulary".to_owned()));
    }
    if !holds_exec(m, seq) {
        return Err(mismatch("", seq, " rows are too many for the width ", m.cfg.model_dim));
    }
    let rope: Rope = rope_exec(&m.cfg);
    let mut x: Vec<F32> = embed(m, tokens);
    let mut blocks: Vec<BlockCache> = Vec::new();
    let mut l: usize = 0;
    while l < m.blocks.len()
        invariant
            trains(*m),
            holds_run(*m, seq as int),
            seq == tokens@.len(),
            rope == rope_of(m.cfg),
            l <= m.blocks@.len(),
            blocks@.len() == l,
            x@ == block_input(*m, tokens@, blocks@, l as int),
            x@.len() == seq * m.cfg.model_dim,
            blocks_forwarded(math, *m, tokens@, dropout, seed, blocks@, l as int),
            forall|k: int|
                0 <= k < l ==> block_sized(m.blocks@[k], seq as int, #[trigger] blocks@[k]),
        decreases m.blocks@.len() - l,
    {
        proof {
            assert(block_is_plain(m.blocks@[l as int]));
            assert(m.blocks@[l as int].fits() && m.blocks@[l as int].dim() == m.cfg.model_dim);
            assert(rope_suits(rope, m.blocks@[l as int]));
            assert(block_holds(m.blocks@[l as int], seq as int));
        }
        let s: u64 = seed.wrapping_add(l as u64).wrapping_add(1);
        proof {
            assert(s == block_seed(seed, l as int)) by {
                let a = seed.wrapping_add(l as u64);
                assert(a as int == (seed + l) % 0x1_0000_0000_0000_0000);
                assert(s as int == (a + 1) % 0x1_0000_0000_0000_0000);
            }
        }
        let ghost input = x@;
        let ghost before = blocks@;
        let (c, out) = block_forward(
            math,
            &m.blocks[l],
            &rope,
            m.cfg.norm_eps,
            x,
            seq,
            dropout,
            s,
        );
        blocks.push(c);
        x = out;
        proof {
            assert forall|k: int| 0 <= k < l + 1 implies block_forwarded(
                math,
                m.blocks@[k],
                rope_of(m.cfg),
                m.cfg.norm_eps,
                block_input(*m, tokens@, blocks@, k),
                tokens@.len() as int,
                dropout,
                block_seed(seed, k),
                #[trigger] blocks@[k],
            ) by {
                assert(block_input(*m, tokens@, blocks@, k) == block_input(
                    *m,
                    tokens@,
                    before,
                    k,
                ));
                if k < l {
                    assert(blocks@[k] == before[k]);
                }
            }
            assert forall|k: int| 0 <= k < l + 1 implies block_sized(
                m.blocks@[k],
                seq as int,
                #[trigger] blocks@[k],
            ) by {
                if k < l {
                    assert(blocks@[k] == before[k]);
                }
            }
        }
        l = l + 1;
    }
    let (xn, nf_inv) = norm_forward(
        x.as_slice(),
        m.final_norm.weight.as_slice(),
        m.cfg.norm_eps,
        seq,
    );
    let logits: Vec<F32> = lin_forward(&m.lm_head, xn.as_slice(), seq);
    Ok(FwdCache { blocks, xfinal: x, nf_inv, xn, logits })
}

// ---------------------------------------------------------------------------
// Loss
// ---------------------------------------------------------------------------

/// The number of tokens that are predicted.
pub open spec fn predicted(seq: int) -> int {
    if seq < 1 {
        0
    } else {
        seq - 1
    }
}

/// What the loss is divided by.
pub open spec fn loss_count(seq: int) -> F32 {
    of_int(
        if predicted(seq) < 1 {
            1
        } else {
            predicted(seq)
        },
    )
}

/// The gradient of logit `j` of a row.
pub open spec fn next_gradient(p: F32, is_target: bool, count: F32) -> F32 {
    p.sub_spec(
        if is_target {
            F32 { bits: 0x3f80_0000 }
        } else {
            F32 { bits: 0 }
        },
    ).div_spec(count)
}

/// `loss` and `d` are the loss and the gradient of the logits: row `t` predicts
/// token `t + 1`. `probs` are the softmax of the rows, and `logs` the logarithms
/// of what the next tokens have of it.
pub open spec fn next_token_loss_via<M: Math>(
    math: &M,
    logits: Seq<F32>,
    tokens: Seq<usize>,
    vocab: int,
    probs: Seq<Seq<F32>>,
    logs: Seq<F32>,
    loss: F32,
    d: Seq<F32>,
) -> bool {
    let seq = tokens.len() as int;
    let n = predicted(seq);
    &&& probs.len() == n
    &&& logs.len() == n
    &&& d.len() == seq * vocab
    &&& forall|t: int|
        0 <= t < n ==> is_softmax(math, row_of(logits, t, vocab), #[trigger] probs[t])
    &&& forall|t: int|
        0 <= t < n ==> is_ln(
            math,
            probs[t][tokens[t + 1] as int].max_spec(F32 { bits: 0x2b8c_bccc }),
            #[trigger] logs[t],
        )
    &&& loss == sum_of(negated_all(logs)).div_spec(loss_count(seq))
    &&& forall|t: int, j: int|
        0 <= t < seq && 0 <= j < vocab ==> d[#[trigger] cell(t, j, vocab)] == if t < n {
            next_gradient(probs[t][j], j == tokens[t + 1], loss_count(seq))
        } else {
            F32 { bits: 0 }
        }
}

/// `loss` and `d` are the loss and the gradient of the logits.
pub open spec fn is_next_token_loss<M: Math>(
    math: &M,
    logits: Seq<F32>,
    tokens: Seq<usize>,
    vocab: int,
    loss: F32,
    d: Seq<F32>,
) -> bool {
    exists|probs: Seq<Seq<F32>>, logs: Seq<F32>| #[trigger]
        next_token_loss_via(math, logits, tokens, vocab, probs, logs, loss, d)
}

/// The mean cross-entropy of the next tokens, and its gradient.
pub fn cross_entropy<M: Math>(math: &M, logits: &[F32], tokens: &[usize], vocab: usize) -> (r: (
    F32,
    Vec<F32>,
))
    requires
        logits@.len() == tokens@.len() * vocab,
        forall|i: int| 0 <= i < tokens@.len() ==> #[trigger] tokens@[i] < vocab,
    ensures
        is_next_token_loss(math, logits@, tokens@, vocab as int, r.0, r.1@),
        r.1@.len() == logits@.len(),
{
    let seq: usize = tokens.len();
    let total: usize = logits.len();
    let n: usize = if seq < 1 {
        0
    } else {
        seq - 1
    };
    let count: F32 = F32::from_u64(
        if n < 1 {
            1
        } else {
            n as u64
        },
    );
    let ghost mut probs: Seq<Seq<F32>> = Seq::empty();
    let ghost mut logs: Seq<F32> = Seq::empty();
    let mut losses: Vec<F32> = Vec::new();
    let mut d: Vec<F32> = Vec::new();
    let mut t: usize = 0;
    proof {
        assert(0 * vocab == 0) by (nonlinear_arith);
        assert(losses@ =~= negated_all(logs));
    }
    while t < n
        invariant
            t <= n == predicted(seq as int),
            seq == tokens@.len(),
            total == logits@.len() == seq * vocab,
            count == loss_count(seq as int),
            forall|i: int| 0 <= i < tokens@.len() ==> #[trigger] tokens@[i] < vocab,
            probs.len() == t,
            logs.len() == t,
            losses@ == negated_all(logs),
            d@.len() == t * vocab,
            forall|k: int|
                0 <= k < t ==> is_softmax(
                    math,
                    row_of(logits@, k, vocab as int),
                    #[trigger] probs[k],
                ),
            forall|k: int|
                0 <= k < t ==> is_ln(
                    math,
                    probs[k][tokens@[k + 1] as int].max_spec(F32 { bits: 0x2b8c_bccc }),
                    #[trigger] logs[k],
                ),
            forall|k: int, j: int|
                0 <= k < t && 0 <= j < vocab ==> d@[#[trigger] cell(k, j, vocab as int)]
                    == next_gradient(probs[k][j], j == tokens@[k + 1], count),
        decreases n - t,
    {
        proof {
            lemma_row(t as int, seq as int, vocab as int);
            assert(tokens@[t + 1] < vocab);
        }
        let base: usize = t * vocab;
        let p: Vec<F32> = softmax(math, slice_subrange(logits, base, base + vocab));
        let target: usize = tokens[t + 1];
        let x: F32 = p[target].max(F32 { bits: 0x2b8c_bccc });
        let g: F32 = math.ln(x);
        assert(is_ln(math, x, g));
        losses.push(g.neg());
        let ghost probs0 = probs;
        let ghost logs0 = logs;
        proof {
            probs = probs.push(p@);
            logs = logs.push(g);
            assert(losses@ =~= negated_all(logs));
        }
        let mut j: usize = 0;
        while j < vocab
            invariant
                t < n,
                j <= vocab == p@.len(),
                probs == probs0.push(p@),
                probs0.len() == t,
                target == tokens@[t + 1],
                d@.len() == t * vocab + j,
                forall|k: int, c: int|
                    0 <= k < t && 0 <= c < vocab ==> d@[#[trigger] cell(k, c, vocab as int)]
                        == next_gradient(probs[k][c], c == tokens@[k + 1], count),
                forall|c: int|
                    0 <= c < j ==> d@[#[trigger] cell(t as int, c, vocab as int)]
                        == next_gradient(p@[c], c == target, count),
            decreases vocab - j,
        {
            let one: F32 = if j == target {
                F32::one()
            } else {
                F32::zero()
            };
            let ghost before = d@;
            d.push(p[j].sub(one).div(count));
            proof {
                assert forall|k: int, c: int| 0 <= k < t && 0 <= c < vocab implies d@[
                    #[trigger] cell(k, c, vocab as int)] == before[cell(k, c, vocab as int)] by {
                    lemma_cell(k, c, t as int, vocab as int);
                }
                assert(cell(t as int, j as int, vocab as int) == t * vocab + j);
            }
            j = j + 1;
        }
        proof {
            assert forall|k: int| 0 <= k < t + 1 implies is_ln(
                math,
                probs[k][tokens@[k + 1] as int].max_spec(F32 { bits: 0x2b8c_bccc }),
                #[trigger] logs[k],
            ) by {
                if k < t {
                    assert(logs[k] == logs0[k] && probs[k] == probs0[k]);
                }
            }
            assert forall|k: int| 0 <= k < t + 1 implies is_softmax(
                math,
                row_of(logits@, k, vocab as int),
                #[trigger] probs[k],
            ) by {
                if k < t {
                    assert(probs[k] == probs0[k]);
                }
            }
            assert forall|k: int, j: int| 0 <= k < t + 1 && 0 <= j < vocab implies d@[
                #[trigger] cell(k, j, vocab as int)] == next_gradient(
                probs[k][j],
                j == tokens@[k + 1],
                count,
            ) by {
                if k < t {
                    assert(probs[k] == probs0[k]);
                }
            }
        }
        t = t + 1;
    }
    let ghost head = d@;
    proof {
        assert(n * vocab <= seq * vocab) by (nonlinear_arith)
            requires
                n <= seq,
                vocab >= 0,
        ;
    }
    let mut rest: usize = d.len();
    while rest < total
        invariant
            n * vocab <= rest <= total,
            d@.len() == rest,
            head.len() == n * vocab,
            forall|e: int| 0 <= e < head.len() ==> #[trigger] d@[e] == head[e],
            forall|e: int| n * vocab <= e < rest ==> #[trigger] d@[e] == (F32 { bits: 0 }),
        decreases total - rest,
    {
        d.push(F32::zero());
        rest = rest + 1;
    }
    let loss: F32 = sum(losses.as_slice()).div(count);
    proof {
        assert forall|k: int, j: int| 0 <= k < seq && 0 <= j < vocab implies d@[#[trigger] cell(
            k,
            j,
            vocab as int,
        )] == if k < n {
            next_gradient(probs[k][j], j == tokens@[k + 1], loss_count(seq as int))
        } else {
            F32 { bits: 0 }
        } by {
            lemma_cell(k, j, seq as int, vocab as int);
            if k < n {
                lemma_cell(k, j, n as int, vocab as int);
                assert(d@[cell(k, j, vocab as int)] == head[cell(k, j, vocab as int)]);
            } else {
                assert(k * vocab >= n * vocab) by (nonlinear_arith)
                    requires
                        k >= n,
                        vocab >= 0,
                ;
            }
        }
        assert(next_token_loss_via(
            math,
            logits@,
            tokens@,
            vocab as int,
            probs,
            logs,
            loss,
            d@,
        ));
    }
    (loss, d)
}

// ---------------------------------------------------------------------------
// Backward
// ---------------------------------------------------------------------------

/// A number with the gradients of channel `e % d` of the first `n` rows of token
/// `e / d` added to it.
pub open spec fn token_sum(
    init: F32,
    tokens: Seq<usize>,
    dx: Seq<F32>,
    e: int,
    d: int,
    n: nat,
) -> F32
    decreases n,
{
    if n == 0 {
        init
    } else {
        let before = token_sum(init, tokens, dx, e, d, (n - 1) as nat);
        if tokens[n - 1] == e / d {
            before.add_spec(dx[cell(n - 1, e % d, d)])
        } else {
            before
        }
    }
}

/// The gradients of the token vectors, added to what was there.
pub open spec fn token_sums(
    g: Seq<F32>,
    tokens: Seq<usize>,
    dx: Seq<F32>,
    d: int,
) -> Seq<F32> {
    Seq::new(g.len(), |e: int| token_sum(g[e], tokens, dx, e, d, tokens.len()))
}

/// The gradients of a model are added to buffers; `dxs` holds the gradients of
/// the rows before each block and behind the last.
pub open spec fn backed_via<M: Math>(
    math: &M,
    m: LlamaModel,
    c: FwdCache,
    d_logits: Seq<F32>,
    tokens: Seq<usize>,
    g0: Buffers,
    g1: Buffers,
    dxs: Seq<Seq<F32>>,
) -> bool {
    let seq = tokens.len() as int;
    let n = m.blocks@.len() as int;
    let d_xn = affine_dx(m.lm_head, d_logits, seq);
    &&& dxs.len() == n + 1
    &&& affine_adds(m.lm_head, c.xn@, d_logits, seq, g0.lm_head, g1.lm_head)
    &&& g1.final_norm@ == norm_dw(d_xn, c.xfinal@, c.nf_inv@, seq, g0.final_norm@)
    &&& dxs[n] == norm_rows_dx(d_xn, c.xfinal@, m.final_norm.weight@, c.nf_inv@, seq)
    &&& g1.blocks@.len() == n
    &&& blocks_backed(math, m, c, seq, g0.blocks@, g1.blocks@, dxs, 0)
    &&& g1.tok_emb@ == token_sums(g0.tok_emb@, tokens, dxs[0], m.cfg.model_dim as int)
}

/// The gradients of a model are added to buffers.
pub open spec fn backed<M: Math>(
    math: &M,
    m: LlamaModel,
    c: FwdCache,
    d_logits: Seq<F32>,
    tokens: Seq<usize>,
    g0: Buffers,
    g1: Buffers,
) -> bool {
    exists|dxs: Seq<Seq<F32>>| #[trigger]
        backed_via(math, m, c, d_logits, tokens, g0, g1, dxs)
}

/// Adds the gradients of the rows to the vectors of their tokens.
fn add_token_gradients(g: &mut Vec<F32>, tokens: &[usize], dx: &[F32], vocab: usize, d: usize)
    requires
        dx@.len() == tokens@.len() * d,
        old(g)@.len() == vocab * d,
        forall|i: int| 0 <= i < tokens@.len() ==> #[trigger] tokens@[i] < vocab,
    ensures
        final(g)@ == token_sums(old(g)@, tokens@, dx@, d as int),
        final(g)@.len() == old(g)@.len(),
{
    let ghost g0 = g@;
    let n: usize = g.len();
    let total: usize = dx.len();
    let mut t: usize = 0;
    while t < tokens.len()
        invariant
            t <= tokens@.len(),
            n == g@.len() == g0.len() == vocab * d,
            total == dx@.len() == tokens@.len() * d,
            forall|i: int| 0 <= i < tokens@.len() ==> #[trigger] tokens@[i] < vocab,
            forall|e: int|
                0 <= e < n ==> #[trigger] g@[e] == token_sum(
                    g0[e],
                    tokens@,
                    dx@,
                    e,
                    d as int,
                    t as nat,
                ),
        decreases tokens@.len() - t,
    {
        let tok: usize = tokens[t];
        proof {
            assert(tokens@[t as int] < vocab);
            lemma_row(tok as int, vocab as int, d as int);
            lemma_row(t as int, tokens@.len() as int, d as int);
            assert((t + 1 - 1) as nat == t as nat);
        }
        let ghost before = g@;
        let mut j: usize = 0;
        while j < d
            invariant
                j <= d,
                t < tokens@.len(),
                tok == tokens@[t as int],
                n == g@.len() == before.len(),
                total == dx@.len(),
                0 <= tok * d,
                tok * d + d <= n,
                0 <= t * d,
                t * d + d <= total,
                forall|e: int|
                    0 <= e < n ==> #[trigger] g@[e] == if tok * d <= e < tok * d + j {
                        before[e].add_spec(dx@[t * d + (e - tok * d)])
                    } else {
                        before[e]
                    },
            decreases d - j,
        {
            let at: usize = tok * d + j;
            let v: F32 = g[at].add(dx[t * d + j]);
            g.set(at, v);
            j = j + 1;
        }
        proof {
            assert forall|e: int| 0 <= e < n implies #[trigger] g@[e] == token_sum(
                g0[e],
                tokens@,
                dx@,
                e,
                d as int,
                (t + 1) as nat,
            ) by {
                assert(before[e] == token_sum(g0[e], tokens@, dx@, e, d as int, t as nat));
                assert(d > 0) by (nonlinear_arith)
                    requires
                        n == vocab * d,
                        n > 0,
                ;
                lemma_split(e, vocab as int, d as int);
                if tok * d <= e < tok * d + d {
                    lemma_unsplit(tok as int, e - tok * d, d as int);
                } else if e / (d as int) == tok {
                    assert(false);
                }
            }
        }
        t = t + 1;
    }
    assert(g@ =~= token_sums(g0, tokens@, dx@, d as int));
}

/// The gradients of the blocks from `from` on are added to buffers.
pub open spec fn blocks_backed<M: Math>(
    math: &M,
    m: LlamaModel,
    c: FwdCache,
    seq: int,
    g0: Seq<BlockBuf>,
    g1: Seq<BlockBuf>,
    dxs: Seq<Seq<F32>>,
    from: int,
) -> bool {
    forall|l: int|
        from <= l < m.blocks@.len() ==> block_backed(
            math,
            m.blocks@[l],
            rope_of(m.cfg),
            c.blocks@[l],
            dxs[l + 1],
            seq,
            g0[l],
            #[trigger] g1[l],
            dxs[l],
        )
}

/// Adds the gradients of a model to buffers.
pub fn backward_into<M: Math>(
    math: &M,
    m: &LlamaModel,
    c: &FwdCache,
    d_logits: &[F32],
    tokens: &[usize],
    g: &mut Buffers,
)
    requires
        trains(*m),
        m.knows_all(tokens@),
        run_sized(*m, tokens@.len() as int, *c),
        d_logits@.len() == tokens@.len() * m.cfg.vocab_size,
        old(g).suits(*m),
    ensures
        backed(math, *m, *c, d_logits@, tokens@, *old(g), *final(g)),
        final(g).suits(*m),
{
    let ghost g0 = *g;
    let seq: usize = tokens.len();
    let rope: Rope = rope_exec(&m.cfg);
    let d_xn: Vec<F32> = lin_backward(&m.lm_head, c.xn.as_slice(), d_logits, seq, &mut g.lm_head);
    let mut d_x: Vec<F32> = norm_backward(
        d_xn.as_slice(),
        c.xfinal.as_slice(),
        m.final_norm.weight.as_slice(),
        c.nf_inv.as_slice(),
        seq,
        &mut g.final_norm,
    );
    let n: usize = m.blocks.len();
    let ghost mut dxs: Seq<Seq<F32>> = Seq::new(n as nat + 1, |i: int| d_x@);
    let ghost head = *g;
    let mut l: usize = n;
    while l > 0
        invariant
            trains(*m),
            run_sized(*m, tokens@.len() as int, *c),
            seq == tokens@.len(),
            rope == rope_of(m.cfg),
            l <= n == m.blocks@.len(),
            dxs.len() == n + 1,
            dxs[n as int] == norm_rows_dx(
                affine_dx(m.lm_head, d_logits@, seq as int),
                c.xfinal@,
                m.final_norm.weight@,
                c.nf_inv@,
                seq as int,
            ),
            d_x@ == dxs[l as int],
            d_x@.len() == seq * m.cfg.model_dim,
            g.lm_head == head.lm_head,
            g.final_norm == head.final_norm,
            g.tok_emb == head.tok_emb,
            head.blocks == g0.blocks,
            g.blocks@.len() == n == g0.blocks@.len(),
            forall|k: int| 0 <= k < n ==> (#[trigger] g.blocks@[k]).suits(m.blocks@[k]),
            forall|k: int| 0 <= k < l ==> #[trigger] g.blocks@[k] == g0.blocks@[k],
            blocks_backed(
                math,
                *m,
                *c,
                seq as int,
                g0.blocks@,
                g.blocks@,
                dxs,
                l as int,
            ),
        decreases l,
    {
        l = l - 1;
        proof {
            assert(block_is_plain(m.blocks@[l as int]));
            assert(m.blocks@[l as int].fits() && m.blocks@[l as int].dim() == m.cfg.model_dim);
            assert(rope_suits(rope, m.blocks@[l as int]));
            assert(block_sized(m.blocks@[l as int], seq as int, c.blocks@[l as int]));
            assert(g.blocks@[l as int].suits(m.blocks@[l as int]));
        }
        let ghost before = g.blocks@;
        let ghost dxs0 = dxs;
        d_x = block_backward(
            math,
            &m.blocks[l],
            &rope,
            &c.blocks[l],
            d_x.as_slice(),
            seq,
            &mut g.blocks[l],
        );
        proof {
            dxs = dxs.update(l as int, d_x@);
            assert forall|k: int| l <= k < m.blocks@.len() implies block_backed(
                math,
                m.blocks@[k],
                rope_of(m.cfg),
                c.blocks@[k],
                dxs[k + 1],
                seq as int,
                g0.blocks@[k],
                #[trigger] g.blocks@[k],
                dxs[k],
            ) by {
                assert(dxs[k + 1] == dxs0[k + 1]);
                if k > l {
                    assert(g.blocks@[k] == before[k]);
                }
            }
        }
    }
    add_token_gradients(
        &mut g.tok_emb,
        tokens,
        d_x.as_slice(),
        m.cfg.vocab_size,
        m.cfg.model_dim,
    );
    proof {
        assert(backed_via(math, *m, *c, d_logits@, tokens@, g0, *g, dxs));
    }
}

/// `loss` and `parts` are the loss of a run of tokens and the gradients of the
/// parameters of a model.
pub open spec fn is_gradient<M: Math>(
    math: &M,
    m: LlamaModel,
    tokens: Seq<usize>,
    dropout: F32,
    seed: u64,
    loss: F32,
    parts: Seq<Seq<F32>>,
) -> bool {
    exists|c: FwdCache, d: Seq<F32>, g0: Buffers, g1: Buffers| #[trigger]
        gradient_via(math, m, tokens, dropout, seed, loss, c, d, g0, g1) && parts == g1.parts()
}

/// The loss and the gradients, through the cache, the gradients of the logits and
/// buffers that hold zeros.
pub open spec fn gradient_via<M: Math>(
    math: &M,
    m: LlamaModel,
    tokens: Seq<usize>,
    dropout: F32,
    seed: u64,
    loss: F32,
    c: FwdCache,
    d: Seq<F32>,
    g0: Buffers,
    g1: Buffers,
) -> bool {
    &&& forwarded(math, m, tokens, dropout, seed, c)
    &&& is_next_token_loss(math, c.logits@, tokens, m.cfg.vocab_size as int, loss, d)
    &&& g0.suits(m) && all_zero(g0.parts())
    &&& backed(math, m, c, d, tokens, g0, g1)
}

/// `loss` is the loss of a run of tokens.
pub open spec fn is_loss<M: Math>(
    math: &M,
    m: LlamaModel,
    tokens: Seq<usize>,
    dropout: F32,
    seed: u64,
    loss: F32,
) -> bool {
    exists|c: FwdCache, d: Seq<F32>|
        forwarded(math, m, tokens, dropout, seed, c) && #[trigger] is_next_token_loss(
            math,
            c.logits@,
            tokens,
            m.cfg.vocab_size as int,
            loss,
            d,
        )
}

/// Whether a run of tokens can be handled.
pub open spec fn can_run(m: LlamaModel, tokens: Seq<usize>) -> bool {
    m.knows_all(tokens) && holds_run(m, tokens.len() as int)
}

/// The loss of a run of tokens.
pub fn run_loss<M: Math>(
    math: &M,
    m: &LlamaModel,
    tokens: &[usize],
    dropout: F32,
    seed: u64,
) -> (r: Result<F32>)
    requires
        trains(*m),
    ensures
        match r {
            Ok(loss) => can_run(*m, tokens@) && is_loss(
                math,
                *m,
                tokens@,
                dropout,
                seed,
                loss,
            ),
            Err(e) => e is DimMismatch && !can_run(*m, tokens@),
        },
{
    let c: FwdCache = match forward_train(math, m, tokens, dropout, seed) {
        Ok(c) => c,
        Err(e) => return Err(e),
    };
    let (loss, _d) = cross_entropy(math, c.logits.as_slice(), tokens, m.cfg.vocab_size);
    Ok(loss)
}

/// The loss of a run of tokens and the gradients of the parameters. A loss that
/// is not finite is refused.
pub fn run_gradient<M: Math>(
    math: &M,
    m: &LlamaModel,
    tokens: &[usize],
    dropout: F32,
    seed: u64,
) -> (r: Result<(F32, Buffers)>)
    requires
        trains(*m),
    ensures
        match r {
            Ok(t) => {
                &&& can_run(*m, tokens@)
                &&& t.0.finite_spec()
                &&& is_gradient(math, *m, tokens@, dropout, seed, t.0, t.1.parts())
                &&& t.1.suits(*m)
            },
            Err(e) => {
                &&& e is DimMismatch
                &&& can_run(*m, tokens@) ==> exists|loss: F32|
                    !loss.finite_spec() && #[trigger] is_loss(
                        math,
                        *m,
                        tokens@,
                        dropout,
                        seed,
                        loss,
                    )
            },
        },
{
    let c: FwdCache = match forward_train(math, m, tokens, dropout, seed) {
        Ok(c) => c,
        Err(e) => return Err(e),
    };
    let (loss, d) = cross_entropy(math, c.logits.as_slice(), tokens, m.cfg.vocab_size);
    if !loss.is_finite() {
        assert(is_loss(math, *m, tokens@, dropout, seed, loss));
        return Err(InferError::DimMismatch("non-finite loss".to_owned()));
    }
    let mut g: Buffers = Buffers::zeros(m);
    let ghost g0 = g;
    backward_into(math, m, &c, d.as_slice(), tokens, &mut g);
    proof {
        assert(gradient_via(math, *m, tokens@, dropout, seed, loss, c, d@, g0, g));
    }
    Ok((loss, g))
}

} // verus!
