//! Decoder models: embedding, blocks, final norm, head; whole sequences, token
//! by token with a cache, and generation.
use crate::error::{InferError, Result};
use crate::float::F32;
use crate::index::lemma_row;
use crate::layer::{Forward, Linear};
use crate::llm::{
    lemma_image_rows, lemma_rows_extend, linear_row, KvLayer, LlamaBlock, RmsNorm, RopeType,
};
use crate::math::Math;
use crate::ops::{append_row, mismatch, row_of};
use crate::rng::Rng;
use crate::tensor::{copy_f32, copy_sizes, Tensor};
use vstd::prelude::*;
use vstd::slice::slice_subrange;

verus! {

/// Sizes and constants of a model.
#[derive(Clone, Copy, Debug)]
pub struct LlamaConfig {
    pub vocab_size: usize,
    pub model_dim: usize,
    pub n_layers: usize,
    pub n_heads: usize,
    pub n_kv_heads: usize,
    pub head_dim: usize,
    pub ffn_dim: usize,
    pub rope_dim: usize,
    pub rope_base: F32,
    pub rope_type: RopeType,
    pub norm_eps: F32,
    pub context_len: usize,
}

/// Keys and values of one layer.
pub type Kv = (Seq<F32>, Seq<F32>);

/// The caches of all layers, and the position of the next token.
pub struct LlamaCache {
    pub layers: Vec<KvLayer>,
    pub next: usize,
}

/// Keys and values of the layers of a cache.
pub open spec fn kv_of(layers: Seq<KvLayer>) -> Seq<Kv> {
    Seq::new(layers.len(), |l: int| (layers[l].k@, layers[l].v@))
}

/// Layers without positions.
pub open spec fn no_kv(n: nat) -> Seq<Kv> {
    Seq::new(n, |l: int| (Seq::<F32>::empty(), Seq::<F32>::empty()))
}

impl LlamaCache {
    /// An empty cache for `n_layers` layers.
    pub fn new(n_layers: usize) -> (c: Self)
        ensures
            c.next == 0,
            kv_of(c.layers@) == no_kv(n_layers as nat),
    {
        let mut layers: Vec<KvLayer> = Vec::with_capacity(n_layers);
        let mut i: usize = 0;
        while i < n_layers
            invariant
                i <= n_layers,
                layers@.len() == i,
                forall|j: int|
                    0 <= j < i ==> (#[trigger] layers@[j]).k@.len() == 0 && layers@[j].v@.len()
                        == 0,
            decreases n_layers - i,
        {
            layers.push(KvLayer::new());
            i = i + 1;
        }
        proof {
            lemma_no_kv(layers@);
        }
        LlamaCache { layers, next: 0 }
    }

    /// Forgets all positions.
    pub fn clear(&mut self)
        ensures
            final(self).next == 0,
            kv_of(final(self).layers@) == no_kv(old(self).layers@.len()),
    {
        let n: usize = self.layers.len();
        let fresh: LlamaCache = LlamaCache::new(n);
        proof {
            assert(kv_of(fresh.layers@).len() == n);
        }
        *self = fresh;
    }

    /// The position of the next token.
    pub fn pos(&self) -> (n: usize)
        ensures
            n == self.next,
    {
        self.next
    }
}

proof fn lemma_no_kv(layers: Seq<KvLayer>)
    requires
        forall|j: int|
            0 <= j < layers.len() ==> (#[trigger] layers[j]).k@.len() == 0 && layers[j].v@.len()
                == 0,
    ensures
        kv_of(layers) == no_kv(layers.len()),
{
    assert forall|l: int| 0 <= l < layers.len() implies kv_of(layers)[l] == no_kv(
        layers.len(),
    )[l] by {
        assert(layers[l].k@ =~= Seq::<F32>::empty());
        assert(layers[l].v@ =~= Seq::<F32>::empty());
    }
    assert(kv_of(layers) =~= no_kv(layers.len()));
}

/// A decoder model. The head may be tied to the embedding.
#[derive(Clone, Debug)]
pub struct LlamaModel {
    pub cfg: LlamaConfig,
    /// Token vectors, one row each.
    pub tok_emb: Vec<F32>,
    pub blocks: Vec<LlamaBlock>,
    pub final_norm: RmsNorm,
    pub lm_head: Linear,
}

impl LlamaModel {
    /// The parts fit together.
    pub open spec fn fits(self) -> bool {
        &&& self.tok_emb@.len() == self.cfg.vocab_size * self.cfg.model_dim
        &&& forall|l: int|
            0 <= l < self.blocks@.len() ==> (#[trigger] self.blocks@[l]).fits()
                && self.blocks@[l].dim() == self.cfg.model_dim
        &&& self.final_norm.weight@.len() == self.cfg.model_dim
        &&& self.lm_head.fits()
        &&& self.lm_head.in_f == self.cfg.model_dim
        &&& self.lm_head.out_f == self.cfg.vocab_size
    }

    /// The vector of a token.
    pub open spec fn embedding(self, token: int) -> Seq<F32> {
        row_of(self.tok_emb@, token, self.cfg.model_dim as int)
    }

    /// The scores of the next token from a final hidden row.
    pub open spec fn scores(self, x: Seq<F32>) -> Seq<F32> {
        self.lm_head.image(self.final_norm.image(x))
    }

    /// Whether layer `l` takes row `xs[l]` to `xs[l + 1]` and its keys and
    /// values from `kv0` to `kv1`.
    pub open spec fn layer_steps<M: Math>(
        self,
        m: &M,
        pos: usize,
        kv0: Seq<Kv>,
        kv1: Seq<Kv>,
        xs: Seq<Seq<F32>>,
        l: int,
    ) -> bool {
        self.blocks@[l].steps(
            m,
            xs[l],
            pos,
            kv0[l].0,
            kv0[l].1,
            kv1[l].0,
            kv1[l].1,
            xs[l + 1],
        )
    }

    /// Whether a token at position `pos` takes the caches from `kv0` to `kv1`
    /// and gives `logits`, by way of the rows `xs` between the layers.
    pub open spec fn steps_via<M: Math>(
        self,
        m: &M,
        token: usize,
        pos: usize,
        kv0: Seq<Kv>,
        kv1: Seq<Kv>,
        xs: Seq<Seq<F32>>,
        logits: Seq<F32>,
    ) -> bool {
        let n = self.blocks@.len();
        &&& token < self.cfg.vocab_size
        &&& kv0.len() == n
        &&& kv1.len() == n
        &&& xs.len() == n + 1
        &&& xs[0] == self.embedding(token as int)
        &&& forall|l: int|
            0 <= l < n ==> #[trigger] self.layer_steps(m, pos, kv0, kv1, xs, l)
        &&& logits == self.scores(xs[n as int])
    }

    /// Whether a token at position `pos` takes the caches from `kv0` to `kv1`
    /// and gives `logits`.
    pub open spec fn steps<M: Math>(
        self,
        m: &M,
        token: usize,
        pos: usize,
        kv0: Seq<Kv>,
        kv1: Seq<Kv>,
        logits: Seq<F32>,
    ) -> bool {
        exists|xs: Seq<Seq<F32>>| #[trigger]
            self.steps_via(m, token, pos, kv0, kv1, xs, logits)
    }

    /// Every layer of the cache holds `pos` positions.
    pub open spec fn holds(self, layers: Seq<KvLayer>, pos: int) -> bool {
        &&& layers.len() == self.blocks@.len()
        &&& forall|l: int|
            0 <= l < layers.len() ==> (#[trigger] layers[l]).k@.len() == pos
                * self.blocks@[l].attn.kv_dim() && layers[l].v@.len() == pos
                * self.blocks@[l].attn.kv_dim()
    }

    /// The vector of a token.
    pub fn embed(&self, token: usize) -> (r: Result<Vec<F32>>)
        requires
            self.fits(),
        ensures
            match r {
                Ok(v) => token < self.cfg.vocab_size && v@ == self.embedding(token as int),
                Err(e) => token >= self.cfg.vocab_size && e is DimMismatch,
            },
    {
        let d: usize = self.cfg.model_dim;
        if token >= self.cfg.vocab_size {
            return Err(mismatch("token ", token, " ≥ vocab_size ", self.cfg.vocab_size));
        }
        let held: usize = self.tok_emb.len();
        proof {
            lemma_row(token as int, self.cfg.vocab_size as int, d as int);
        }
        let base: usize = token * d;
        Ok(copy_f32(slice_subrange(self.tok_emb.as_slice(), base, base + d)))
    }

    /// The scores of the next token.
    pub fn head(&self, h: &[F32]) -> (v: Vec<F32>)
        requires
            self.fits(),
            h@.len() == self.cfg.model_dim,
        ensures
            v@ == self.scores(h@),
    {
        let normed: Vec<F32> = self.final_norm.row(h);
        linear_row(&self.lm_head, normed)
    }

    /// Feeds one token at the cache's position through all blocks. A refused
    /// token leaves the cache as it was.
    pub fn forward_one<M: Math>(&self, m: &M, token: usize, cache: &mut LlamaCache) -> (r: Result<
        Vec<F32>,
    >)
        requires
            self.fits(),
            self.holds(old(cache).layers@, old(cache).next as int),
            old(cache).next < usize::MAX,
        ensures
            match r {
                Ok(v) => {
                    &&& token < self.cfg.vocab_size
                    &&& v@.len() == self.cfg.vocab_size
                    &&& self.steps(
                        m,
                        token,
                        old(cache).next,
                        kv_of(old(cache).layers@),
                        kv_of(final(cache).layers@),
                        v@,
                    )
                    &&& final(cache).next == old(cache).next + 1
                    &&& self.holds(final(cache).layers@, final(cache).next as int)
                },
                Err(e) => {
                    &&& token >= self.cfg.vocab_size
                    &&& e is DimMismatch
                    &&& *final(cache) == *old(cache)
                },
            },
    {
        let pos: usize = cache.next;
        let ghost start = cache.layers@;
        let ghost n = self.blocks@.len();
        let mut x: Vec<F32> = match self.embed(token) {
            Ok(v) => v,
            Err(e) => return Err(e),
        };
        proof {
            lemma_row(token as int, self.cfg.vocab_size as int, self.cfg.model_dim as int);
        }
        let ghost mut xs: Seq<Seq<F32>> = seq![x@];
        let mut l: usize = 0;
        while l < self.blocks.len()
            invariant
                self.fits(),
                n == self.blocks@.len(),
                l <= n,
                self.holds(start, pos as int),
                cache.next == pos,
                cache.layers@.len() == n,
                x@.len() == self.cfg.model_dim,
                xs.len() == l + 1,
                xs[l as int] == x@,
                xs[0] == self.embedding(token as int),
                forall|i: int| l <= i < n ==> #[trigger] cache.layers@[i] == start[i],
                forall|i: int|
                    0 <= i < l ==> (#[trigger] cache.layers@[i]).k@.len() == (pos + 1)
                        * self.blocks@[i].attn.kv_dim() && cache.layers@[i].v@.len() == (pos + 1)
                        * self.blocks@[i].attn.kv_dim(),
                forall|i: int|
                    0 <= i < l ==> #[trigger] self.layer_steps(
                        m,
                        pos,
                        kv_of(start),
                        kv_of(cache.layers@),
                        xs,
                        i,
                    ),
            decreases n - l,
        {
            let ghost before = cache.layers@;
            let ghost xs0 = xs;
            proof {
                let d = self.blocks@[l as int].attn.kv_dim();
                let a = self.blocks@[l as int].attn.n_kv_heads as int;
                let b = self.blocks@[l as int].attn.head_dim as int;
                assert(d > 0) by (nonlinear_arith)
                    requires
                        d == a * b,
                        a > 0,
                        b > 0,
                ;
                assert(cache.layers@[l as int] == start[l as int]);
                assert((pos * d) % d == 0) by (nonlinear_arith)
                    requires
                        d > 0,
                ;
                assert(pos * d + d == (pos + 1) * d) by (nonlinear_arith);
            }
            let y: Vec<F32> = match self.blocks[l].forward_one(
                m,
                x.as_slice(),
                pos,
                &mut cache.layers[l],
            ) {
                Ok(y) => y,
                Err(e) => return Err(e),
            };
            proof {
                xs = xs.push(y@);
                assert forall|i: int| 0 <= i < l + 1 implies #[trigger] self.layer_steps(
                    m,
                    pos,
                    kv_of(start),
                    kv_of(cache.layers@),
                    xs,
                    i,
                ) by {
                    if i < l {
                        assert(self.layer_steps(m, pos, kv_of(start), kv_of(before), xs0, i));
                        assert(cache.layers@[i] == before[i]);
                        assert(xs[i] == xs0[i] && xs[i + 1] == xs0[i + 1]);
                        assert(kv_of(cache.layers@)[i] == kv_of(before)[i]);
                    } else {
                        assert(kv_of(start)[i] == (start[i].k@, start[i].v@));
                        assert(xs[i] == x@ && xs[i + 1] == y@);
                    }
                }
                assert forall|i: int| 0 <= i < l + 1 implies (#[trigger] cache.layers@[i]).k@.len()
                    == (pos + 1) * self.blocks@[i].attn.kv_dim() && cache.layers@[i].v@.len() == (
                pos + 1) * self.blocks@[i].attn.kv_dim() by {
                    if i < l {
                        assert(cache.layers@[i] == before[i]);
                    }
                }
            }
            x = y;
            l = l + 1;
        }
        cache.next = pos + 1;
        let v: Vec<F32> = self.head(x.as_slice());
        proof {
            assert(self.steps_via(
                m,
                token,
                pos,
                kv_of(start),
                kv_of(cache.layers@),
                xs,
                v@,
            ));
        }
        Ok(v)
    }

    /// Whether layer `l` takes the row of position `t` on, with the keys and
    /// values of the positions up to `t`.
    pub open spec fn cell_steps<M: Math>(
        self,
        m: &M,
        xs: Seq<Seq<Seq<F32>>>,
        kv: Seq<Kv>,
        l: int,
        t: int,
    ) -> bool {
        let d = self.blocks@[l].attn.kv_dim();
        self.blocks@[l].steps(
            m,
            xs[l][t],
            t as usize,
            kv[l].0.subrange(0, t * d),
            kv[l].1.subrange(0, t * d),
            kv[l].0.subrange(0, t * d + d),
            kv[l].1.subrange(0, t * d + d),
            xs[l + 1][t],
        )
    }

    /// Whether the first `n` layers take the rows of `tokens` on, by way of the
    /// rows `xs` between the layers and the keys and values `kv`.
    pub open spec fn passes<M: Math>(
        self,
        m: &M,
        tokens: Seq<usize>,
        n: int,
        xs: Seq<Seq<Seq<F32>>>,
        kv: Seq<Kv>,
    ) -> bool {
        &&& xs.len() == n + 1
        &&& kv.len() == n
        &&& forall|l: int| 0 <= l <= n ==> (#[trigger] xs[l]).len() == tokens.len()
        &&& self.knows_all(tokens)
        &&& forall|t: int|
            0 <= t < tokens.len() ==> #[trigger] xs[0][t] == self.embedding(tokens[t] as int)
        &&& forall|l: int|
            0 <= l < n ==> (#[trigger] kv[l]).0.len() == tokens.len()
                * self.blocks@[l].attn.kv_dim() && kv[l].1.len() == tokens.len()
                * self.blocks@[l].attn.kv_dim()
        &&& forall|l: int, t: int|
            0 <= l < n && 0 <= t < tokens.len() ==> #[trigger] self.cell_steps(m, xs, kv, l, t)
    }

    /// Whether the model may give these rows of scores for a sequence.
    pub open spec fn reads<M: Math>(
        self,
        m: &M,
        tokens: Seq<usize>,
        rows: Seq<Seq<F32>>,
    ) -> bool {
        let n = self.blocks@.len() as int;
        &&& rows.len() == tokens.len()
        &&& exists|xs: Seq<Seq<Seq<F32>>>, kv: Seq<Kv>|
            #[trigger] self.passes(m, tokens, n, xs, kv) && forall|t: int|
                0 <= t < tokens.len() ==> #[trigger] rows[t] == self.scores(xs[n][t])
    }

    /// Whether every token is in the vocabulary.
    pub open spec fn knows_all(self, tokens: Seq<usize>) -> bool {
        forall|t: int| 0 <= t < tokens.len() ==> #[trigger] tokens[t] < self.cfg.vocab_size
    }
}

/// The rows of row-major storage.
pub open spec fn rows_of(data: Seq<F32>, n: nat, c: int) -> Seq<Seq<F32>> {
    Seq::new(n, |i: int| row_of(data, i, c))
}


impl LlamaModel {
    /// Whether some block's feed-forward rows or the scores of `n` positions
    /// cannot be held.
    pub open spec fn too_long(self, n: int) -> bool {
        ||| exists|l: int|
            0 <= l < self.blocks@.len() && n * (#[trigger] self.blocks@[l]).ffn.gate.out_f
                > usize::MAX
        ||| n * self.cfg.vocab_size > usize::MAX
    }

    /// Scores for every position of a sequence, without a cache.
    pub fn forward_tokens<M: Math>(&self, m: &M, tokens: &[usize]) -> (r: Result<Tensor>)
        requires
            self.fits(),
            tokens@.len() * self.cfg.model_dim <= usize::MAX,
        ensures
            match r {
                Ok(t) => {
                    &&& self.knows_all(tokens@)
                    &&& t.wf()
                    &&& t.is_sized(tokens@.len() as int, self.cfg.vocab_size as int)
                    &&& self.reads(
                        m,
                        tokens@,
                        rows_of(t.data@, tokens@.len(), self.cfg.vocab_size as int),
                    )
                },
                Err(e) => e is DimMismatch && (!self.knows_all(tokens@) || self.too_long(
                    tokens@.len() as int,
                )),
            },
    {
        let seq: usize = tokens.len();
        let d: usize = self.cfg.model_dim;
        let ghost n = self.blocks@.len() as int;
        let mut x: Vec<F32> = Vec::new();
        let mut t: usize = 0;
        proof {
            assert(0 * d == 0) by (nonlinear_arith);
        }
        while t < seq
            invariant
                self.fits(),
                t <= seq == tokens@.len(),
                d == self.cfg.model_dim,
                x@.len() == t * d,
                forall|i: int| 0 <= i < t ==> #[trigger] tokens@[i] < self.cfg.vocab_size,
                forall|i: int|
                    0 <= i < t ==> #[trigger] row_of(x@, i, d as int) == self.embedding(
                        tokens@[i] as int,
                    ),
            decreases seq - t,
        {
            let row: Vec<F32> = match self.embed(tokens[t]) {
                Ok(v) => v,
                Err(e) => {
                    assert(!self.knows_all(tokens@)) by {
                        assert(tokens@[t as int] >= self.cfg.vocab_size);
                    }
                    return Err(e);
                },
            };
            let ghost before = x@;
            proof {
                lemma_row(tokens@[t as int] as int, self.cfg.vocab_size as int, d as int);
            }
            append_row(&mut x, row.as_slice());
            proof {
                lemma_rows_extend(before, row@, t as int, d as int);
                assert forall|i: int| 0 <= i < t + 1 implies #[trigger] row_of(x@, i, d as int)
                    == self.embedding(tokens@[i] as int) by {
                    if i < t {
                        assert(row_of(x@, i, d as int) == row_of(before, i, d as int));
                    }
                }
            }
            t = t + 1;
        }
        let ghost xs_data = x@;
        let mut h: Tensor = match Tensor::matrix(seq, d, x) {
            Ok(h) => h,
            Err(_) => return Err(InferError::DimMismatch("sequence too long".to_owned())),
        };
        let ghost mut xs: Seq<Seq<Seq<F32>>> = seq![rows_of(h.data@, seq as nat, d as int)];
        let ghost mut kv: Seq<Kv> = Seq::empty();
        let mut l: usize = 0;
        proof {
            assert(self.knows_all(tokens@));
            assert forall|i: int| 0 <= i < tokens@.len() implies #[trigger] xs[0][i]
                == self.embedding(tokens@[i] as int) by {
                assert(row_of(xs_data, i, d as int) == self.embedding(tokens@[i] as int));
            }
            assert(self.passes(m, tokens@, 0, xs, kv));
        }
        while l < self.blocks.len()
            invariant
                self.fits(),
                n == self.blocks@.len(),
                l <= n,
                seq == tokens@.len(),
                d == self.cfg.model_dim,
                h.wf(),
                h.is_sized(seq as int, d as int),
                self.knows_all(tokens@),
                self.passes(m, tokens@, l as int, xs, kv),
                xs[l as int] == rows_of(h.data@, seq as nat, d as int),
            decreases n - l,
        {
            let ghost blk = self.blocks@[l as int];
            let r: Result<Tensor> = self.blocks[l].forward_full(m, &h);
            let y: Tensor = match r {
                Ok(y) => y,
                Err(e) => {
                    proof {
                        assert(seq * blk.ffn.gate.out_f > usize::MAX);
                        assert(self.too_long(seq as int));
                    }
                    return Err(e);
                },
            };
            proof {
                let (kc, vc) = choose|kc: Seq<F32>, vc: Seq<F32>|
                    #[trigger] blk.runs_via(m, h.data@, y.data@, seq as int, kc, vc);
                let xs0 = xs;
                let kv0 = kv;
                xs = xs0.push(rows_of(y.data@, seq as nat, d as int));
                kv = kv0.push((kc, vc));
                lemma_passes_more(
                    *self,
                    m,
                    tokens@,
                    l as int,
                    xs0,
                    kv0,
                    h.data@,
                    y.data@,
                    kc,
                    vc,
                    d as int,
                );
            }
            h = y;
            l = l + 1;
        }
        let normed: Tensor = match self.final_norm.forward(&h) {
            Ok(t) => t,
            Err(e) => return Err(e),
        };
        let logits: Tensor = match self.lm_head.forward(m, &normed) {
            Ok(t) => t,
            Err(e) => return Err(e),
        };
        proof {
            let rows = rows_of(logits.data@, seq as nat, self.cfg.vocab_size as int);
            assert forall|t: int| 0 <= t < tokens@.len() implies #[trigger] rows[t] == self.scores(
                xs[n][t],
            ) by {
                lemma_image_rows(self.lm_head, normed, logits, t);
                assert(xs[n][t] == row_of(h.data@, t, d as int));
                assert(row_of(normed.data@, t, d as int) == self.final_norm.image(
                    row_of(h.data@, t, d as int),
                ));
            }
            assert(self.reads(m, tokens@, rows));
        }
        Ok(logits)
    }
}

proof fn lemma_passes_more<M: Math>(
    model: LlamaModel,
    m: &M,
    tokens: Seq<usize>,
    l: int,
    xs0: Seq<Seq<Seq<F32>>>,
    kv0: Seq<Kv>,
    h: Seq<F32>,
    y: Seq<F32>,
    kc: Seq<F32>,
    vc: Seq<F32>,
    d: int,
)
    requires
        0 <= l < model.blocks@.len(),
        model.passes(m, tokens, l, xs0, kv0),
        d == model.blocks@[l].dim(),
        xs0[l] == rows_of(h, tokens.len(), d),
        model.blocks@[l].runs_via(m, h, y, tokens.len() as int, kc, vc),
    ensures
        model.passes(
            m,
            tokens,
            l + 1,
            xs0.push(rows_of(y, tokens.len(), d)),
            kv0.push((kc, vc)),
        ),
{
    let xs = xs0.push(rows_of(y, tokens.len(), d));
    let kv = kv0.push((kc, vc));
    assert forall|i: int, t: int| 0 <= i < l + 1 && 0 <= t < tokens.len() implies #[trigger] model.cell_steps(
        m,
        xs,
        kv,
        i,
        t,
    ) by {
        if i < l {
            assert(model.cell_steps(m, xs0, kv0, i, t));
            assert(xs[i] == xs0[i] && xs[i + 1] == xs0[i + 1] && kv[i] == kv0[i]);
        } else {
            assert(model.blocks@[l].run_step(m, h, y, kc, vc, t));
            assert(xs[i][t] == row_of(h, t, d));
            assert(xs[i + 1][t] == row_of(y, t, d));
        }
    }
    assert forall|i: int| 0 <= i <= l + 1 implies (#[trigger] xs[i]).len() == tokens.len() by {
        if i <= l {
            assert(xs[i] == xs0[i]);
        }
    }
    assert forall|i: int| 0 <= i < l + 1 implies (#[trigger] kv[i]).0.len() == tokens.len()
        * model.blocks@[i].attn.kv_dim() && kv[i].1.len() == tokens.len()
        * model.blocks@[i].attn.kv_dim() by {
        if i < l {
            assert(kv[i] == kv0[i]);
        }
    }
    assert forall|t: int| 0 <= t < tokens.len() implies #[trigger] xs[0][t] == model.embedding(
        tokens[t] as int,
    ) by {
        assert(xs[0] == xs0[0]);
        assert(xs0[0][t] == model.embedding(tokens[t] as int));
    }
}

// ---------------------------------------------------------------------------
// The cache and the whole sequence agree
// ---------------------------------------------------------------------------

/// Whether feeding `tokens` one by one from an empty cache may go through these
/// cache states and give these rows of scores.
pub open spec fn decodes<M: Math>(
    model: LlamaModel,
    m: &M,
    tokens: Seq<usize>,
    states: Seq<Seq<Kv>>,
    rows: Seq<Seq<F32>>,
) -> bool {
    &&& states.len() == tokens.len() + 1
    &&& rows.len() == tokens.len()
    &&& states[0] == no_kv(model.blocks@.len())
    &&& forall|t: int|
        0 <= t < tokens.len() ==> #[trigger] model.steps(
            m,
            tokens[t],
            t as usize,
            states[t],
            states[t + 1],
            rows[t],
        )
}

/// The first `t` positions of all layers.
pub open spec fn kv_prefix(model: LlamaModel, kv: Seq<Kv>, t: int) -> Seq<Kv> {
    Seq::new(
        kv.len(),
        |l: int|
            (
                kv[l].0.subrange(0, t * model.blocks@[l].attn.kv_dim()),
                kv[l].1.subrange(0, t * model.blocks@[l].attn.kv_dim()),
            ),
    )
}

/// Whatever a pass over the whole sequence may give, feeding the tokens one by
/// one from an empty cache may give too, row for row.
pub proof fn whole_sequence_is_a_cached_run<M: Math>(
    model: LlamaModel,
    m: &M,
    tokens: Seq<usize>,
    rows: Seq<Seq<F32>>,
)
    requires
        model.reads(m, tokens, rows),
    ensures
        exists|states: Seq<Seq<Kv>>| decodes(model, m, tokens, states, rows),
{
    let n = model.blocks@.len() as int;
    let (xs, kv) = choose|xs: Seq<Seq<Seq<F32>>>, kv: Seq<Kv>|
        #[trigger] model.passes(m, tokens, n, xs, kv) && forall|t: int|
            0 <= t < tokens.len() ==> #[trigger] rows[t] == model.scores(xs[n][t]);
    let states = Seq::new(tokens.len() + 1, |t: int| kv_prefix(model, kv, t));
    assert(states[0] =~= no_kv(model.blocks@.len())) by {
        assert forall|l: int| 0 <= l < n implies states[0][l] == no_kv(model.blocks@.len())[l] by {
            let d = model.blocks@[l].attn.kv_dim();
            assert(0 * d == 0) by (nonlinear_arith);
            assert(kv[l].0.subrange(0, 0) =~= Seq::<F32>::empty());
            assert(kv[l].1.subrange(0, 0) =~= Seq::<F32>::empty());
        }
    }
    assert forall|t: int| 0 <= t < tokens.len() implies #[trigger] model.steps(
        m,
        tokens[t],
        t as usize,
        states[t],
        states[t + 1],
        rows[t],
    ) by {
        let ys = Seq::new((n + 1) as nat, |l: int| xs[l][t]);
        assert forall|l: int| 0 <= l < n implies #[trigger] model.layer_steps(
            m,
            t as usize,
            states[t],
            states[t + 1],
            ys,
            l,
        ) by {
            let d = model.blocks@[l].attn.kv_dim();
            assert(model.cell_steps(m, xs, kv, l, t));
            assert(t * d + d == (t + 1) * d) by (nonlinear_arith);
        }
        assert(xs[0][t] == model.embedding(tokens[t] as int));
        assert(model.steps_via(
            m,
            tokens[t],
            t as usize,
            states[t],
            states[t + 1],
            ys,
            rows[t],
        ));
    }
    assert(decodes(model, m, tokens, states, rows));
}

/// One step appends one row of keys and one of values to each layer.
proof fn lemma_step_appends<M: Math>(
    model: LlamaModel,
    m: &M,
    token: usize,
    pos: usize,
    kv0: Seq<Kv>,
    kv1: Seq<Kv>,
    logits: Seq<F32>,
    l: int,
)
    requires
        model.fits(),
        model.steps(m, token, pos, kv0, kv1, logits),
        0 <= l < model.blocks@.len(),
    ensures
        kv1[l].0.len() == kv0[l].0.len() + model.blocks@[l].attn.kv_dim(),
        kv1[l].1.len() == kv0[l].1.len() + model.blocks@[l].attn.kv_dim(),
        kv1[l].0.subrange(0, kv0[l].0.len() as int) == kv0[l].0,
        kv1[l].1.subrange(0, kv0[l].1.len() as int) == kv0[l].1,
{
    let xs = choose|xs: Seq<Seq<F32>>| #[trigger]
        model.steps_via(m, token, pos, kv0, kv1, xs, logits);
    assert(model.layer_steps(m, pos, kv0, kv1, xs, l));
    let blk = model.blocks@[l];
    let (a, f) = choose|a: Seq<F32>, f: Seq<F32>|
        #[trigger] blk.steps_via(
            m,
            xs[l],
            pos,
            kv0[l].0,
            kv0[l].1,
            kv1[l].0,
            kv1[l].1,
            xs[l + 1],
            a,
            f,
        );
    let (q, k, v, ctx) = choose|q: Seq<F32>, k: Seq<F32>, v: Seq<F32>, ctx: Seq<F32>|
        #[trigger] blk.attn.steps_via(
            m,
            blk.attn_norm.image(xs[l]),
            pos,
            kv0[l].0,
            kv0[l].1,
            kv1[l].0,
            kv1[l].1,
            a,
            q,
            k,
            v,
            ctx,
        );
    assert(kv1[l].0.subrange(0, kv0[l].0.len() as int) =~= kv0[l].0);
    assert(kv1[l].1.subrange(0, kv0[l].1.len() as int) =~= kv0[l].1);
}

/// The states of a cached run are the beginnings of its last state.
proof fn lemma_states_are_prefixes<M: Math>(
    model: LlamaModel,
    m: &M,
    tokens: Seq<usize>,
    states: Seq<Seq<Kv>>,
    rows: Seq<Seq<F32>>,
    t: int,
    u: int,
    l: int,
)
    requires
        model.fits(),
        decodes(model, m, tokens, states, rows),
        0 <= t <= u <= tokens.len(),
        0 <= l < model.blocks@.len(),
    ensures
        states[t][l].0.len() == t * model.blocks@[l].attn.kv_dim(),
        states[t][l].1.len() == t * model.blocks@[l].attn.kv_dim(),
        states[u][l].0.len() == u * model.blocks@[l].attn.kv_dim(),
        states[u][l].1.len() == u * model.blocks@[l].attn.kv_dim(),
        t * model.blocks@[l].attn.kv_dim() <= u * model.blocks@[l].attn.kv_dim(),
        states[t][l].0 == states[u][l].0.subrange(0, t * model.blocks@[l].attn.kv_dim()),
        states[t][l].1 == states[u][l].1.subrange(0, t * model.blocks@[l].attn.kv_dim()),
    decreases u, u - t,
{
    let d = model.blocks@[l].attn.kv_dim();
    let a = model.blocks@[l].attn.n_kv_heads as int;
    let b = model.blocks@[l].attn.head_dim as int;
    assert(d > 0) by (nonlinear_arith)
        requires
            d == a * b,
            a > 0,
            b > 0,
    ;
    if u == 0 {
        assert(states[0][l] == no_kv(model.blocks@.len())[l]);
        assert(0 * d == 0) by (nonlinear_arith);
        assert(states[0][l].0 =~= states[0][l].0.subrange(0, 0));
        assert(states[0][l].1 =~= states[0][l].1.subrange(0, 0));
    } else {
        let s = u - 1;
        assert(model.steps(m, tokens[s], s as usize, states[s], states[s + 1], rows[s]));
        lemma_step_appends(
            model,
            m,
            tokens[s],
            s as usize,
            states[s],
            states[s + 1],
            rows[s],
            l,
        );
        assert(s * d + d == u * d) by (nonlinear_arith)
            requires
                s == u - 1,
        ;
        if t == u {
            lemma_states_are_prefixes(model, m, tokens, states, rows, s, s, l);
            assert(states[u][l].0 =~= states[u][l].0.subrange(0, u * d));
            assert(states[u][l].1 =~= states[u][l].1.subrange(0, u * d));
        } else {
            lemma_states_are_prefixes(model, m, tokens, states, rows, t, s, l);
            assert(states[u][l].0.subrange(0, t * d) =~= states[s][l].0.subrange(0, t * d)) by {
                assert(states[u][l].0.subrange(0, s * d) == states[s][l].0);
            }
            assert(states[u][l].1.subrange(0, t * d) =~= states[s][l].1.subrange(0, t * d)) by {
                assert(states[u][l].1.subrange(0, s * d) == states[s][l].1);
            }
        }
    }
}

/// Whatever feeding tokens one by one from an empty cache may give, a pass over
/// the whole sequence may give too, row for row.
pub proof fn cached_run_is_a_whole_sequence<M: Math>(
    model: LlamaModel,
    m: &M,
    tokens: Seq<usize>,
    states: Seq<Seq<Kv>>,
    rows: Seq<Seq<F32>>,
)
    requires
        model.fits(),
        decodes(model, m, tokens, states, rows),
    ensures
        model.reads(m, tokens, rows),
{
    let n = model.blocks@.len() as int;
    let last = tokens.len() as int;
    let between = |t: int|
        choose|ys: Seq<Seq<F32>>| #[trigger]
            model.steps_via(m, tokens[t], t as usize, states[t], states[t + 1], ys, rows[t]);
    let kv = Seq::new(n as nat, |l: int| states[last][l]);
    let xs = Seq::new((n + 1) as nat, |l: int| Seq::new(tokens.len(), |t: int| between(t)[l]));
    assert forall|t: int| 0 <= t < last implies #[trigger] model.steps_via(
        m,
        tokens[t],
        t as usize,
        states[t],
        states[t + 1],
        between(t),
        rows[t],
    ) by {
        assert(model.steps(m, tokens[t], t as usize, states[t], states[t + 1], rows[t]));
    }
    assert forall|l: int, t: int| 0 <= l < n && 0 <= t < last implies #[trigger] model.cell_steps(
        m,
        xs,
        kv,
        l,
        t,
    ) by {
        let d = model.blocks@[l].attn.kv_dim();
        assert(model.steps_via(
            m,
            tokens[t],
            t as usize,
            states[t],
            states[t + 1],
            between(t),
            rows[t],
        ));
        assert(model.layer_steps(m, t as usize, states[t], states[t + 1], between(t), l));
        lemma_states_are_prefixes(model, m, tokens, states, rows, t, last, l);
        lemma_states_are_prefixes(model, m, tokens, states, rows, t + 1, last, l);
        assert(t * d + d == (t + 1) * d) by (nonlinear_arith);
    }
    assert forall|l: int| 0 <= l < n implies (#[trigger] kv[l]).0.len() == tokens.len()
        * model.blocks@[l].attn.kv_dim() && kv[l].1.len() == tokens.len()
        * model.blocks@[l].attn.kv_dim() by {
        lemma_states_are_prefixes(model, m, tokens, states, rows, last, last, l);
    }
    assert forall|t: int| 0 <= t < last implies #[trigger] tokens[t] < model.cfg.vocab_size by {
        assert(model.steps_via(
            m,
            tokens[t],
            t as usize,
            states[t],
            states[t + 1],
            between(t),
            rows[t],
        ));
    }
    assert forall|t: int| 0 <= t < last implies #[trigger] xs[0][t] == model.embedding(
        tokens[t] as int,
    ) by {
        assert(model.steps_via(
            m,
            tokens[t],
            t as usize,
            states[t],
            states[t + 1],
            between(t),
            rows[t],
        ));
    }
    assert(model.passes(m, tokens, n, xs, kv));
    assert forall|t: int| 0 <= t < last implies #[trigger] rows[t] == model.scores(xs[n][t]) by {
        assert(model.steps_via(
            m,
            tokens[t],
            t as usize,
            states[t],
            states[t + 1],
            between(t),
            rows[t],
        ));
    }
}


// ---------------------------------------------------------------------------
// Generation
// ---------------------------------------------------------------------------

/// Choice of the next token. Nothing is assumed of it.
pub trait Sampler {
    /// A token for the given scores after the given tokens, and the state of the
    /// random generator after the draws; `state` is the state before them.
    fn sample(&self, scores: &Vec<F32>, recent: &Vec<usize>, state: u64) -> (usize, u64);
}

/// The sampler may pick `token` for these scores after these tokens, and take
/// the random generator from `before` to `after`.
pub open spec fn picks<S: Sampler>(
    s: &S,
    scores: Seq<F32>,
    recent: Seq<usize>,
    before: u64,
    token: usize,
    after: u64,
) -> bool {
    exists|sv: Vec<F32>, rv: Vec<usize>|
        sv@ == scores && rv@ == recent && #[trigger] call_ensures(
            S::sample,
            (s, &sv, &rv, before),
            (token, after),
        )
}

/// How many of the new tokens are fed back: all but a final end token.
pub open spec fn fed_of(out: Seq<usize>, eos: Option<usize>) -> int {
    if out.len() > 0 && Some(out[out.len() - 1]) == eos {
        out.len() - 1
    } else {
        out.len() as int
    }
}

/// The course of a generation: cache states, rows of scores, and states of the
/// random generator.
pub struct Course {
    pub states: Seq<Seq<Kv>>,
    pub rows: Seq<Seq<F32>>,
    pub seeds: Seq<u64>,
}

impl LlamaModel {
    /// Whether pick `i` of `out` follows from the scores before it.
    pub open spec fn picked<S: Sampler>(
        self,
        s: &S,
        prompt: Seq<usize>,
        out: Seq<usize>,
        c: Course,
        i: int,
    ) -> bool {
        picks(
            s,
            c.rows[prompt.len() - 1 + i],
            prompt + out.subrange(0, i),
            c.seeds[i],
            out[i],
            c.seeds[i + 1],
        )
    }

    /// Whether `out` is sampled after `prompt` along the course `c`, with the
    /// first `fed` of the new tokens fed back.
    pub open spec fn continues<M: Math, S: Sampler>(
        self,
        m: &M,
        s: &S,
        prompt: Seq<usize>,
        out: Seq<usize>,
        fed: int,
        c: Course,
    ) -> bool {
        &&& 0 <= fed <= out.len()
        &&& decodes(
            self,
            m,
            prompt + out.subrange(0, fed),
            c.states,
            c.rows,
        )
        &&& c.seeds.len() == out.len() + 1
        &&& forall|i: int| 0 <= i < out.len() ==> #[trigger] self.picked(s, prompt, out, c, i)
    }

    /// Whether `out` is sampled after `prompt` along the course `c`, no end token
    /// among it, and its last token is the first that the model does not know.
    pub open spec fn strays<M: Math, S: Sampler>(
        self,
        m: &M,
        s: &S,
        prompt: Seq<usize>,
        out: Seq<usize>,
        eos: Option<usize>,
        c: Course,
    ) -> bool {
        &&& prompt.len() > 0
        &&& self.knows_all(prompt)
        &&& out.len() > 0
        &&& self.continues(m, s, prompt, out, out.len() - 1, c)
        &&& out.last() >= self.cfg.vocab_size
        &&& forall|i: int| 0 <= i < out.len() ==> Some(#[trigger] out[i]) != eos
    }

    /// Generates up to `max_new` tokens after `prompt`, ending with `eos` if it
    /// comes. The new tokens are returned.
    pub fn generate<M: Math, S: Sampler>(
        &self,
        m: &M,
        prompt: &[usize],
        max_new: usize,
        sampler: &S,
        eos: Option<usize>,
        rng: &mut Rng,
    ) -> (r: Result<Vec<usize>>)
        requires
            self.fits(),
        ensures
            match r {
                Ok(out) => {
                    &&& prompt@.len() > 0
                    &&& self.knows_all(prompt@)
                    &&& out@.len() <= max_new
                    &&& out@.len() == max_new || fed_of(out@, eos) < out@.len()
                    &&& forall|i: int|
                        0 <= i < out@.len() - 1 ==> Some(#[trigger] out@[i]) != eos
                    &&& exists|c: Course|
                        #[trigger] self.continues(
                            m,
                            sampler,
                            prompt@,
                            out@,
                            fed_of(out@, eos),
                            c,
                        ) && c.seeds[0] == old(rng)@ && c.seeds[out@.len() as int] == final(rng)@
                },
                Err(e) => e is DimMismatch && {
                    ||| prompt@.len() == 0 && final(rng)@ == old(rng)@
                    ||| !self.knows_all(prompt@) && final(rng)@ == old(rng)@
                    ||| exists|out: Seq<usize>, c: Course| #[trigger]
                        self.strays(m, sampler, prompt@, out, eos, c) && out.len() <= max_new
                            && c.seeds[0] == old(rng)@ && c.seeds[out.len() as int] == final(rng)@
                },
            },
    {
        if prompt.len() == 0 {
            return Err(InferError::DimMismatch("prompt must be non-empty".to_owned()));
        }
        let mut cache: LlamaCache = LlamaCache::new(self.blocks.len());
        let mut logits: Vec<F32> = Vec::new();
        let ghost mut states: Seq<Seq<Kv>> = seq![kv_of(cache.layers@)];
        let ghost mut rows: Seq<Seq<F32>> = Seq::empty();
        proof {
            lemma_holds_empty(*self, cache.layers@);
        }
        let mut i: usize = 0;
        while i < prompt.len()
            invariant
                self.fits(),
                i <= prompt@.len(),
                cache.next == i,
                self.holds(cache.layers@, i as int),
                decodes(*self, m, prompt@.subrange(0, i as int), states, rows),
                states[i as int] == kv_of(cache.layers@),
                i > 0 ==> logits@ == rows[i - 1],
                forall|j: int| 0 <= j < i ==> #[trigger] prompt@[j] < self.cfg.vocab_size,
            decreases prompt@.len() - i,
        {
            let ghost before = kv_of(cache.layers@);
            match self.forward_one(m, prompt[i], &mut cache) {
                Ok(v) => {
                    logits = v;
                },
                Err(e) => {
                    assert(!self.knows_all(prompt@)) by {
                        assert(prompt@[i as int] >= self.cfg.vocab_size);
                    }
                    return Err(e);
                },
            }
            proof {
                lemma_decodes_more(
                    *self,
                    m,
                    prompt@.subrange(0, i as int),
                    states,
                    rows,
                    prompt@[i as int],
                    kv_of(cache.layers@),
                    logits@,
                );
                states = states.push(kv_of(cache.layers@));
                rows = rows.push(logits@);
                assert(prompt@.subrange(0, i as int).push(prompt@[i as int]) =~= prompt@.subrange(
                    0,
                    i + 1,
                ));
            }
            i = i + 1;
        }
        let mut out: Vec<usize> = Vec::new();
        let mut recent: Vec<usize> = copy_sizes(prompt);
        let ghost mut seeds: Seq<u64> = seq![rng@];
        let ghost first = rng@;
        proof {
            assert(prompt@.subrange(0, prompt@.len() as int) =~= prompt@);
            assert(prompt@ + out@.subrange(0, 0) =~= prompt@);
            assert(self.continues(
                m,
                sampler,
                prompt@,
                out@,
                0,
                (Course { states, rows, seeds }),
            ));
        }
        let mut n: usize = 0;
        while n < max_new
            invariant
                self.fits(),
                prompt@.len() > 0,
                self.knows_all(prompt@),
                n <= max_new,
                out@.len() == n,
                recent@ == prompt@ + out@,
                cache.next == prompt@.len() + n,
                self.holds(cache.layers@, cache.next as int),
                self.continues(m, sampler, prompt@, out@, n as int, (Course { states, rows, seeds })),
                states[cache.next as int] == kv_of(cache.layers@),
                logits@ == rows[prompt@.len() - 1 + n],
                seeds[n as int] == rng@,
                seeds[0] == first,
                first == old(rng)@,
                forall|j: int| 0 <= j < n ==> Some(#[trigger] out@[j]) != eos,
            decreases max_new - n,
        {
            let s0: u64 = rng.state();
            let (next, s1) = sampler.sample(&logits, &recent, s0);
            *rng = Rng::from_state(s1);
            let ghost out0 = out@;
            let ghost seeds0 = seeds;
            proof {
                assert(out@.subrange(0, n as int) =~= out@);
                assert(picks(sampler, logits@, recent@, s0, next, s1));
                seeds = seeds.push(s1);
            }
            out.push(next);
            proof {
                assert forall|i: int| 0 <= i < n + 1 implies #[trigger] self.picked(
                    sampler,
                    prompt@,
                    out@,
                    (Course { states, rows, seeds }),
                    i,
                ) by {
                    assert(out@.subrange(0, i) =~= out0.subrange(0, i));
                    if i < n {
                        assert(self.picked(
                            sampler,
                            prompt@,
                            out0,
                            (Course { states, rows, seeds: seeds0 }),
                            i,
                        ));
                    }
                }
                assert(out@.subrange(0, n as int) =~= out0);
                assert(self.continues(
                    m,
                    sampler,
                    prompt@,
                    out@,
                    n as int,
                    (Course { states, rows, seeds }),
                ));
            }
            if let Some(stop) = eos {
                if next == stop {
                    proof {
                        assert(fed_of(out@, eos) == n);
                        let c = Course { states, rows, seeds };
                        assert(self.continues(
                            m,
                            sampler,
                            prompt@,
                            out@,
                            fed_of(out@, eos),
                            c,
                        ));
                        assert(c.seeds[out@.len() as int] == rng@);
                    }
                    return Ok(out);
                }
            }
            recent.push(next);
            // A list that is held can be counted, and so can the position.
            let _held: usize = recent.len();
            let ghost states0 = states;
            let ghost rows0 = rows;
            match self.forward_one(m, next, &mut cache) {
                Ok(v) => {
                    logits = v;
                },
                Err(e) => {
                    proof {
                        let c = Course { states, rows, seeds };
                        assert(self.strays(m, sampler, prompt@, out@, eos, c));
                        assert(c.seeds[out@.len() as int] == rng@);
                    }
                    return Err(e);
                },
            }
            proof {
                let fed = prompt@ + out@.subrange(0, n as int);
                lemma_decodes_more(
                    *self,
                    m,
                    fed,
                    states0,
                    rows0,
                    next,
                    kv_of(cache.layers@),
                    logits@,
                );
                states = states0.push(kv_of(cache.layers@));
                rows = rows0.push(logits@);
                assert(fed.push(next) =~= prompt@ + out@.subrange(0, n + 1));
                assert forall|i: int| 0 <= i < n + 1 implies #[trigger] self.picked(
                    sampler,
                    prompt@,
                    out@,
                    (Course { states, rows, seeds }),
                    i,
                ) by {
                    assert(self.picked(
                        sampler,
                        prompt@,
                        out@,
                        (Course { states: states0, rows: rows0, seeds }),
                        i,
                    ));
                }
                assert(recent@ =~= prompt@ + out@);
            }
            n = n + 1;
        }
        proof {
            assert(fed_of(out@, eos) == n) by {
                if n > 0 {
                    assert(Some(out@[n - 1]) != eos);
                }
            }
            let c = Course { states, rows, seeds };
            assert(self.continues(m, sampler, prompt@, out@, fed_of(out@, eos), c));
        }
        Ok(out)
    }
}

proof fn lemma_holds_empty(model: LlamaModel, layers: Seq<KvLayer>)
    requires
        kv_of(layers) == no_kv(model.blocks@.len()),
    ensures
        model.holds(layers, 0),
{
    assert(kv_of(layers).len() == model.blocks@.len());
    assert forall|l: int| 0 <= l < layers.len() implies (#[trigger] layers[l]).k@.len() == 0
        * model.blocks@[l].attn.kv_dim() && layers[l].v@.len() == 0
        * model.blocks@[l].attn.kv_dim() by {
        let d = model.blocks@[l].attn.kv_dim();
        assert(0 * d == 0) by (nonlinear_arith);
        assert(kv_of(layers)[l] == no_kv(model.blocks@.len())[l]);
    }
}

/// A cached run goes on with one more token.
proof fn lemma_decodes_more<M: Math>(
    model: LlamaModel,
    m: &M,
    tokens: Seq<usize>,
    states: Seq<Seq<Kv>>,
    rows: Seq<Seq<F32>>,
    token: usize,
    state: Seq<Kv>,
    row: Seq<F32>,
)
    requires
        decodes(model, m, tokens, states, rows),
        tokens.len() < usize::MAX,
        model.steps(m, token, tokens.len() as usize, states[tokens.len() as int], state, row),
    ensures
        decodes(model, m, tokens.push(token), states.push(state), rows.push(row)),
{
    let t2 = tokens.push(token);
    let s2 = states.push(state);
    let r2 = rows.push(row);
    assert forall|t: int| 0 <= t < t2.len() implies #[trigger] model.steps(
        m,
        t2[t],
        t as usize,
        s2[t],
        s2[t + 1],
        r2[t],
    ) by {
        if t < tokens.len() {
            assert(model.steps(m, tokens[t], t as usize, states[t], states[t + 1], rows[t]));
        }
    }
}

} // verus!
