//! Training of a decoder: AdamW over minibatches of token runs, with gradient
//! clipping, learning-rate schedules, dropout and int8-aware weights.
use crate::decoder::LlamaModel;
use crate::error::{InferError, Result};
use crate::float::{of_int, F32};
use crate::layer::Linear;
use crate::llm::LlamaBlock;
use crate::math::Math;
use crate::ops::{sum, sum_of};
use crate::optim::{Adam, LrSchedule};
use crate::text::{dec, joined, with_number};
use crate::train_attention::rows_view;
use crate::train_block::{block_is_plain, rope_suits};
use crate::train_model::{
    block_configured, can_run, is_gradient, is_loss, rope_of, run_gradient, run_loss, trains,
};
use crate::train_params::{
    all_zero, lemma_parts_suit, lemma_same_model, lemma_suits, load_model, model_parts,
    model_parts_exec, params_plain, same_block, same_lens, same_model, zeros_of, Buffers,
};
use crate::train_steps::{
    add_parts, all_stepped, clip_parts, clipped, folded, is_parts_norm, is_quantized, joined_parts,
    lemma_joined_grows, quantize_parts, scale_parts, step_parts, times_all, Stepped,
};
use vstd::prelude::*;

verus! {

/// Fine-tunes a decoder in full precision by the cross-entropy of the next token.
pub struct LlamaTrainer {
    pub model: LlamaModel,
    /// The gradients of the last step.
    pub grads: Buffers,
    /// First moments.
    pub m: Buffers,
    /// Second moments.
    pub v: Buffers,
    pub adam: Adam,
    pub weight_decay: F32,
    pub grad_clip: Option<F32>,
    pub lr_schedule: Option<LrSchedule>,
    pub dropout: F32,
    pub qat: bool,
    pub step_t: u64,
}

/// The settings of rotary positions suit the blocks.
pub open spec fn ropes_suit(m: LlamaModel) -> bool {
    forall|l: int|
        0 <= l < m.blocks@.len() ==> rope_suits(rope_of(m.cfg), #[trigger] m.blocks@[l])
}

/// The configuration of a model says how many blocks it has, and what sizes they
/// have.
pub open spec fn is_configured(m: LlamaModel) -> bool {
    &&& m.cfg.n_layers == m.blocks@.len()
    &&& forall|l: int|
        0 <= l < m.blocks@.len() ==> block_configured(m.cfg, #[trigger] m.blocks@[l])
}

/// Zeros in the sizes of a model's parameters.
pub open spec fn zero_parts(m: LlamaModel) -> Seq<Seq<F32>> {
    model_parts(m).map_values(|s: Seq<F32>| zeros_of(s.len()))
}

/// The projections of a block, by their names.
pub open spec fn block_layers(b: LlamaBlock) -> Seq<(Seq<char>, Linear)> {
    seq![
        ("attn_q"@, b.attn.wq),
        ("attn_k"@, b.attn.wk),
        ("attn_v"@, b.attn.wv),
        ("attn_output"@, b.attn.wo),
        ("ffn_gate"@, b.ffn.gate),
        ("ffn_up"@, b.ffn.up),
        ("ffn_down"@, b.ffn.down),
    ]
}

/// What is said of a quantized projection.
pub open spec fn quantized_text(l: int, name: Seq<char>) -> Seq<char> {
    "block "@ + dec(l as nat) + " "@ + name
        + " is quantized; training needs f32 weights (load with load_llama_prec(None))"@
}

/// The first quantized projection of block `l` is the one that `t` names.
pub open spec fn names_quantized(b: LlamaBlock, l: int, t: Seq<char>) -> bool {
    exists|k: int|
        {
            &&& 0 <= k < 7
            &&& (#[trigger] block_layers(b)[k]).1.quant is Some
            &&& forall|j: int| 0 <= j < k ==> (#[trigger] block_layers(b)[j]).1.quant is None
            &&& t == quantized_text(l, block_layers(b)[k].0)
        }
}

/// The first quantized layer of a model is the one that `t` names.
pub open spec fn refuses_model(m: LlamaModel, t: Seq<char>) -> bool {
    ||| exists|l: int|
        {
            &&& 0 <= l < m.blocks@.len()
            &&& forall|k: int| 0 <= k < l ==> block_is_plain(#[trigger] m.blocks@[k])
            &&& #[trigger] names_quantized(m.blocks@[l], l, t)
        }
    ||| (forall|k: int| 0 <= k < m.blocks@.len() ==> block_is_plain(#[trigger] m.blocks@[k])) && t
        == "lm_head is quantized; training needs f32 weights"@
}

/// Refuses a block with a quantized projection.
fn check_plain(b: &LlamaBlock, l: usize) -> (r: Result<()>)
    requires
        b.fits(),
    ensures
        match r {
            Ok(_) => block_is_plain(*b),
            Err(e) => !block_is_plain(*b) && e is DimMismatch && names_quantized(
                *b,
                l as int,
                e->DimMismatch_0@,
            ),
        },
{
    let ghost all = block_layers(*b);
    let (name, k): (&str, Ghost<int>) = if b.attn.wq.quant.is_some() {
        ("attn_q", Ghost(0int))
    } else if b.attn.wk.quant.is_some() {
        ("attn_k", Ghost(1int))
    } else if b.attn.wv.quant.is_some() {
        ("attn_v", Ghost(2int))
    } else if b.attn.wo.quant.is_some() {
        ("attn_output", Ghost(3int))
    } else if b.ffn.gate.quant.is_some() {
        ("ffn_gate", Ghost(4int))
    } else if b.ffn.up.quant.is_some() {
        ("ffn_up", Ghost(5int))
    } else if b.ffn.down.quant.is_some() {
        ("ffn_down", Ghost(6int))
    } else {
        return Ok(());
    };
    let t: String = joined(
        with_number("block ", l, joined(" ", name).as_str()).as_str(),
        " is quantized; training needs f32 weights (load with load_llama_prec(None))",
    );
    proof {
        assert(t@ =~= quantized_text(l as int, name@));
        assert(all[k@].1.quant is Some && all[k@].0 == name@);
    }
    Err(InferError::DimMismatch(t))
}

impl LlamaTrainer {
    /// The model can be trained, and the buffers are of its sizes.
    pub open spec fn wf(self) -> bool {
        &&& trains(self.model)
        &&& self.model.cfg.n_layers == self.model.blocks@.len()
        &&& self.grads.suits(self.model)
        &&& self.m.suits(self.model)
        &&& self.v.suits(self.model)
    }

    /// The settings of another trainer are the same.
    pub open spec fn same_settings(self, o: LlamaTrainer) -> bool {
        &&& o.adam == self.adam
        &&& o.weight_decay == self.weight_decay
        &&& o.grad_clip == self.grad_clip
        &&& o.lr_schedule == self.lr_schedule
        &&& o.dropout == self.dropout
        &&& o.qat == self.qat
    }

    /// A trainer for a model with layers in full precision: AdamW with a rate of
    /// 1e-4, and no weight decay. A model with a quantized layer is refused.
    pub fn new(model: LlamaModel) -> (r: Result<Self>)
        requires
            model.fits(),
            ropes_suit(model),
            is_configured(model),
        ensures
            r is Ok <==> params_plain(model),
            match r {
                Ok(t) => {
                    &&& t.wf()
                    &&& t.model == model
                    &&& all_zero(t.grads.parts()) && all_zero(t.m.parts()) && all_zero(t.v.parts())
                    &&& t.adam == (Adam {
                        lr: F32 { bits: 0x38d1_b717 },
                        beta1: F32 { bits: 0x3f66_6666 },
                        beta2: F32 { bits: 0x3f7f_be77 },
                        eps: F32 { bits: 0x322b_cc77 },
                        weight_decay: F32 { bits: 0 },
                    })
                    &&& t.weight_decay == F32 { bits: 0 }
                    &&& t.grad_clip is None && t.lr_schedule is None
                    &&& t.dropout == F32 { bits: 0 }
                    &&& !t.qat && t.step_t == 0
                },
                Err(e) => e is DimMismatch && refuses_model(model, e->DimMismatch_0@),
            },
    {
        let mut l: usize = 0;
        while l < model.blocks.len()
            invariant
                model.fits(),
                l <= model.blocks@.len(),
                forall|k: int| 0 <= k < l ==> block_is_plain(#[trigger] model.blocks@[k]),
            decreases model.blocks@.len() - l,
        {
            assert(model.blocks@[l as int].fits());
            match check_plain(&model.blocks[l], l) {
                Ok(_) => {},
                Err(e) => return Err(e),
            }
            l = l + 1;
        }
        if model.lm_head.quant.is_some() {
            return Err(
                InferError::DimMismatch(
                    "lm_head is quantized; training needs f32 weights".to_owned(),
                ),
            );
        }
        let grads: Buffers = Buffers::zeros(&model);
        let m: Buffers = Buffers::zeros(&model);
        let v: Buffers = Buffers::zeros(&model);
        Ok(
            LlamaTrainer {
                model,
                grads,
                m,
                v,
                adam: Adam::new(F32 { bits: 0x38d1_b717 }),
                weight_decay: F32::zero(),
                grad_clip: None,
                lr_schedule: None,
                dropout: F32::zero(),
                qat: false,
                step_t: 0,
            },
        )
    }

    /// Takes over the settings of an optimizer; its weight decay too, unless it
    /// is zero.
    pub fn set_optimizer(&mut self, adam: Adam)
        ensures
            *final(self) == (LlamaTrainer {
                adam,
                weight_decay: if adam.weight_decay.zero_spec() {
                    old(self).weight_decay
                } else {
                    adam.weight_decay
                },
                ..*old(self)
            }),
    {
        self.adam = adam;
        if !adam.weight_decay.same_value(F32::zero()) {
            self.weight_decay = adam.weight_decay;
        }
    }

    /// Sets the rate that holds where there is no schedule.
    pub fn set_lr(&mut self, lr: F32)
        ensures
            *final(self) == (LlamaTrainer { adam: Adam { lr, ..old(self).adam }, ..*old(self) }),
    {
        self.adam.lr = lr;
    }

    /// The rate that holds where there is no schedule.
    pub fn lr(&self) -> (lr: F32)
        ensures
            lr == self.adam.lr,
    {
        self.adam.lr
    }

    /// Sets the decoupled weight decay of the matrices.
    pub fn set_weight_decay(&mut self, wd: F32)
        ensures
            *final(self) == (LlamaTrainer { weight_decay: wd, ..*old(self) }),
    {
        self.weight_decay = wd;
    }

    /// The decoupled weight decay of the matrices.
    pub fn weight_decay(&self) -> (wd: F32)
        ensures
            wd == self.weight_decay,
    {
        self.weight_decay
    }

    /// Sets the norm to which gradients are clipped before a step.
    pub fn set_grad_clip(&mut self, max_norm: Option<F32>)
        ensures
            *final(self) == (LlamaTrainer { grad_clip: max_norm, ..*old(self) }),
    {
        self.grad_clip = max_norm;
    }

    /// The norm to which gradients are clipped before a step.
    pub fn grad_clip(&self) -> (max_norm: Option<F32>)
        ensures
            max_norm == self.grad_clip,
    {
        self.grad_clip
    }

    /// Sets the schedule of the learning rate.
    pub fn set_lr_schedule(&mut self, schedule: Option<LrSchedule>)
        ensures
            *final(self) == (LlamaTrainer { lr_schedule: schedule, ..*old(self) }),
    {
        self.lr_schedule = schedule;
    }

    /// The schedule of the learning rate.
    pub fn lr_schedule(&self) -> (schedule: Option<LrSchedule>)
        ensures
            schedule == self.lr_schedule,
    {
        self.lr_schedule
    }

    /// Sets the share of hidden numbers that are dropped in training; at most
    /// 0.95.
    pub fn set_dropout(&mut self, p: F32)
        ensures
            *final(self) == (LlamaTrainer {
                dropout: p.clamp_spec(F32 { bits: 0 }, F32 { bits: 0x3f73_3333 }),
                ..*old(self)
            }),
    {
        self.dropout = p.clamp(F32::zero(), F32 { bits: 0x3f73_3333 });
    }

    /// The share of hidden numbers that are dropped in training.
    pub fn dropout(&self) -> (p: F32)
        ensures
            p == self.dropout,
    {
        self.dropout
    }

    /// Whether gradients are taken at weights on int8 grids.
    pub fn set_qat(&mut self, enabled: bool)
        ensures
            *final(self) == (LlamaTrainer { qat: enabled, ..*old(self) }),
    {
        self.qat = enabled;
    }

    /// Whether gradients are taken at weights on int8 grids.
    pub fn qat_enabled(&self) -> (enabled: bool)
        ensures
            enabled == self.qat,
    {
        self.qat
    }

    /// The steps so far.
    pub fn step_count(&self) -> (t: u64)
        ensures
            t == self.step_t,
    {
        self.step_t
    }

    /// The parameters, part by part.
    pub fn model_snapshot(&self) -> (parts: Vec<Vec<F32>>)
        ensures
            rows_view(parts@) == model_parts(self.model),
    {
        model_parts_exec(&self.model)
    }

    /// The number of parameters.
    pub fn num_params(&self) -> (n: usize)
        requires
            joined_parts(model_parts(self.model), model_parts(self.model).len()).len()
                <= usize::MAX,
        ensures
            n == joined_parts(model_parts(self.model), model_parts(self.model).len()).len(),
    {
        let p: Vec<Vec<F32>> = model_parts_exec(&self.model);
        let ghost pv = model_parts(self.model);
        let mut n: usize = 0;
        let mut i: usize = 0;
        while i < p.len()
            invariant
                pv == rows_view(p@),
                i <= p@.len(),
                n == joined_parts(pv, i as nat).len(),
                joined_parts(pv, pv.len()).len() <= usize::MAX,
            decreases p@.len() - i,
        {
            proof {
                assert((i + 1 - 1) as nat == i as nat);
                lemma_joined_grows(pv, (i + 1) as nat, pv.len());
            }
            n = n + p[i].len();
            i = i + 1;
        }
        n
    }

    /// The mean cross-entropy of the next token, without dropout.
    pub fn loss<M: Math>(&self, math: &M, tokens: &[usize]) -> (r: Result<F32>)
        requires
            self.wf(),
        ensures
            match r {
                Ok(loss) => can_run(self.model, tokens@) && is_loss(
                    math,
                    self.model,
                    tokens@,
                    F32 { bits: 0 },
                    0,
                    loss,
                ),
                Err(e) => e is DimMismatch && !can_run(self.model, tokens@),
            },
    {
        run_loss(math, &self.model, tokens, F32::zero(), 0)
    }

    /// The loss of a run of tokens, without dropout; the gradients are left in
    /// the buffers. Nothing changes where the run is refused.
    pub fn loss_and_backward<M: Math>(&mut self, math: &M, tokens: &[usize]) -> (r: Result<F32>)
        requires
            old(self).wf(),
        ensures
            final(self).wf(),
            match r {
                Ok(loss) => {
                    &&& can_run(old(self).model, tokens@)
                    &&& loss.finite_spec()
                    &&& is_gradient(
                        math,
                        old(self).model,
                        tokens@,
                        F32 { bits: 0 },
                        0,
                        loss,
                        final(self).grads.parts(),
                    )
                    &&& *final(self) == (LlamaTrainer { grads: final(self).grads, ..*old(self) })
                },
                Err(e) => {
                    &&& e is DimMismatch
                    &&& *final(self) == *old(self)
                    &&& run_fails(math, old(self).model, tokens@, F32 { bits: 0 }, 0)
                },
            },
    {
        match run_gradient(math, &self.model, tokens, F32::zero(), 0) {
            Ok(t) => {
                self.grads = t.1;
                Ok(t.0)
            },
            Err(e) => Err(e),
        }
    }
}

/// A run of tokens is refused: it cannot be handled, or its loss is not finite.
pub open spec fn run_fails<M: Math>(
    math: &M,
    m: LlamaModel,
    tokens: Seq<usize>,
    dropout: F32,
    seed: u64,
) -> bool {
    can_run(m, tokens) ==> exists|loss: F32|
        !loss.finite_spec() && #[trigger] is_loss(math, m, tokens, dropout, seed, loss)
}

// ---------------------------------------------------------------------------
// Steps
// ---------------------------------------------------------------------------

/// `lr` is the rate of step `t`.
pub open spec fn is_lr<M: Math>(math: &M, a: LlamaTrainer, t: u64, lr: F32) -> bool {
    match a.lr_schedule {
        Some(s) => s.is_rate(math, t, lr),
        None => lr == a.adam.lr,
    }
}

/// One AdamW step takes trainer `a` to trainer `b`.
pub open spec fn optimized_via<M: Math>(
    math: &M,
    a: LlamaTrainer,
    b: LlamaTrainer,
    lr: F32,
    bc1: F32,
    bc2: F32,
) -> bool {
    &&& a.same_settings(b)
    &&& b.step_t == a.step_t + 1
    &&& is_lr(math, a, b.step_t, lr)
    &&& a.adam.corrects(math, b.step_t, bc1, bc2)
    &&& b.grads == a.grads
    &&& same_model(a.model, b.model)
    &&& all_stepped(
        a.model,
        a.adam,
        lr,
        a.weight_decay,
        bc1,
        bc2,
        a.grads.parts(),
        (model_parts(a.model), a.m.parts(), a.v.parts()),
        (model_parts(b.model), b.m.parts(), b.v.parts()),
    )
}

/// One AdamW step takes trainer `a` to trainer `b`.
pub open spec fn optimized<M: Math>(math: &M, a: LlamaTrainer, b: LlamaTrainer) -> bool {
    exists|lr: F32, bc1: F32, bc2: F32| #[trigger] optimized_via(math, a, b, lr, bc1, bc2)
}

/// Trainer `b` is trainer `a` with clipped gradients.
pub open spec fn clips<M: Math>(math: &M, a: LlamaTrainer, b: LlamaTrainer) -> bool {
    match a.grad_clip {
        Some(max_norm) => exists|norm: F32|
            {
                &&& #[trigger] is_parts_norm(math, a.grads.parts(), norm)
                &&& b.grads.parts() == clipped(a.grads.parts(), norm, max_norm)
                &&& b == LlamaTrainer { grads: b.grads, ..a }
            },
        None => b == a,
    }
}

/// Clipping and one AdamW step take trainer `a` to trainer `b`.
pub open spec fn applied<M: Math>(math: &M, a: LlamaTrainer, b: LlamaTrainer) -> bool {
    exists|mid: LlamaTrainer| #[trigger] clips(math, a, mid) && optimized(math, mid, b)
}

/// Other numbers leave a model one that can be trained.
pub(crate) proof fn lemma_still_trains(a: LlamaModel, b: LlamaModel)
    requires
        trains(a),
        same_model(a, b),
    ensures
        trains(b),
{
    lemma_same_model(a, b);
    assert forall|l: int| 0 <= l < b.blocks@.len() implies rope_suits(
        rope_of(b.cfg),
        #[trigger] b.blocks@[l],
    ) by {
        assert(rope_suits(rope_of(a.cfg), a.blocks@[l]));
    }
    assert forall|l: int| 0 <= l < b.blocks@.len() implies block_configured(
        b.cfg,
        #[trigger] b.blocks@[l],
    ) by {
        assert(block_configured(a.cfg, a.blocks@[l]));
    }
}

/// Buffers suit a model with other numbers.
pub(crate) proof fn lemma_still_suits(g: Buffers, a: LlamaModel, b: LlamaModel)
    requires
        trains(a),
        g.suits(a),
        same_model(a, b),
        same_lens(model_parts(b), model_parts(a)),
    ensures
        g.suits(b),
{
    lemma_suits(g, a);
    lemma_same_model(a, b);
    assert forall|i: int| 0 <= i < g.parts().len() implies (#[trigger] g.parts()[i]).len()
        == model_parts(b)[i].len() by {
        assert(model_parts(b)[i].len() == model_parts(a)[i].len());
    }
    lemma_parts_suit(g, b);
}

/// Lists of the sizes of a model's parameters suit it.
pub(crate) proof fn lemma_loaded_suits(
    g0: Buffers,
    g: Buffers,
    a: LlamaModel,
    b: LlamaModel,
)
    requires
        trains(a),
        g0.suits(a),
        same_model(a, b),
        same_lens(model_parts(b), model_parts(a)),
        g.blocks@.len() == g0.blocks@.len(),
        same_lens(g.parts(), model_parts(a)),
    ensures
        g.suits(b),
{
    lemma_same_model(a, b);
    assert forall|i: int| 0 <= i < g.parts().len() implies (#[trigger] g.parts()[i]).len()
        == model_parts(b)[i].len() by {
        assert(model_parts(b)[i].len() == model_parts(a)[i].len());
    }
    lemma_parts_suit(g, b);
}

impl LlamaTrainer {
    /// Scales the gradients down so that their norm is no more than `max_norm`,
    /// and returns the norm that they had.
    pub fn clip_grad_norm<M: Math>(&mut self, math: &M, max_norm: F32) -> (norm: F32)
        requires
            old(self).wf(),
        ensures
            final(self).wf(),
            is_parts_norm(math, old(self).grads.parts(), norm),
            final(self).grads.parts() == clipped(old(self).grads.parts(), norm, max_norm),
            *final(self) == (LlamaTrainer { grads: final(self).grads, ..*old(self) }),
    {
        let ghost g0 = self.grads;
        proof {
            lemma_suits(self.grads, self.model);
        }
        let (norm, parts) = clip_parts(math, self.grads.to_parts(), max_norm);
        self.grads.load_parts(&parts);
        proof {
            assert forall|i: int| 0 <= i < self.grads.parts().len() implies (
            #[trigger] self.grads.parts()[i]).len() == model_parts(self.model)[i].len() by {
                assert(g0.parts()[i].len() == model_parts(self.model)[i].len());
            }
            lemma_parts_suit(self.grads, self.model);
        }
        norm
    }

    /// One AdamW step from the gradients in the buffers.
    fn optimizer_step<M: Math>(&mut self, math: &M)
        requires
            old(self).wf(),
            old(self).step_t < u64::MAX,
        ensures
            final(self).wf(),
            optimized(math, *old(self), *final(self)),
    {
        let ghost a = *self;
        self.step_t = self.step_t + 1;
        let t: u64 = self.step_t;
        let lr: F32 = match &self.lr_schedule {
            Some(s) => s.lr_at(math, t),
            None => self.adam.lr,
        };
        let (bc1, bc2) = self.adam.corrections(math, t);
        proof {
            lemma_suits(self.grads, self.model);
            lemma_suits(self.m, self.model);
            lemma_suits(self.v, self.model);
        }
        let g: Vec<Vec<F32>> = self.grads.to_parts();
        let r: Stepped = step_parts(
            &self.model,
            &self.adam,
            lr,
            self.weight_decay,
            bc1,
            bc2,
            &g,
            model_parts_exec(&self.model),
            self.m.to_parts(),
            self.v.to_parts(),
        );
        load_model(&mut self.model, &r.p);
        self.m.load_parts(&r.m);
        self.v.load_parts(&r.v);
        proof {
            lemma_still_trains(a.model, self.model);
            lemma_still_suits(self.grads, a.model, self.model);
            lemma_loaded_suits(a.m, self.m, a.model, self.model);
            lemma_loaded_suits(a.v, self.v, a.model, self.model);
            assert(optimized_via(math, a, *self, lr, bc1, bc2));
        }
    }

    /// Clips the gradients, if asked for, and makes one AdamW step.
    pub fn apply_step<M: Math>(&mut self, math: &M)
        requires
            old(self).wf(),
            old(self).step_t < u64::MAX,
        ensures
            final(self).wf(),
            applied(math, *old(self), *final(self)),
    {
        let ghost a = *self;
        match self.grad_clip {
            Some(max_norm) => {
                let _norm: F32 = self.clip_grad_norm(math, max_norm);
            },
            None => {},
        }
        assert(clips(math, a, *self));
        self.optimizer_step(math);
    }
}

// ---------------------------------------------------------------------------
// Minibatches
// ---------------------------------------------------------------------------

/// The runs of a minibatch.
pub open spec fn runs_of(batch: Seq<&[usize]>) -> Seq<Seq<usize>> {
    batch.map_values(|s: &[usize]| s@)
}

/// The seed of the masks of run `i` of a minibatch.
pub open spec fn run_seed(base: u64, i: int) -> u64 {
    ((base + i + 1) % 0x1_0000_0000_0000_0000) as u64
}

/// The runs `from` up to `to` of a minibatch have the losses and gradients given.
pub open spec fn are_gradients<M: Math>(
    math: &M,
    m: LlamaModel,
    runs: Seq<Seq<usize>>,
    dropout: F32,
    base: u64,
    losses: Seq<F32>,
    gs: Seq<Seq<Seq<F32>>>,
    from: int,
    to: int,
) -> bool {
    &&& losses.len() == runs.len()
    &&& gs.len() == runs.len()
    &&& forall|i: int|
        from <= i < to ==> run_done(
            math,
            m,
            runs[i],
            dropout,
            run_seed(base, i),
            #[trigger] losses[i],
            gs[i],
        )
}

/// A run of tokens has the loss and the gradients given.
pub open spec fn run_done<M: Math>(
    math: &M,
    m: LlamaModel,
    tokens: Seq<usize>,
    dropout: F32,
    seed: u64,
    loss: F32,
    g: Seq<Seq<F32>>,
) -> bool {
    &&& can_run(m, tokens)
    &&& loss.finite_spec()
    &&& is_gradient(math, m, tokens, dropout, seed, loss, g)
}

/// Some run of a minibatch is refused.
pub open spec fn some_run_fails<M: Math>(
    math: &M,
    m: LlamaModel,
    runs: Seq<Seq<usize>>,
    dropout: F32,
    base: u64,
) -> bool {
    exists|i: int|
        0 <= i < runs.len() && #[trigger] run_fails(
            math,
            m,
            runs[i],
            dropout,
            run_seed(base, i),
        )
}

/// Gradients are taken at model `q` for trainer `a`: its own, or one with the
/// matrices on int8 grids.
pub open spec fn takes_gradients_at(a: LlamaTrainer, q: LlamaModel) -> bool {
    if a.qat {
        same_model(a.model, q) && is_quantized(a.model, model_parts(a.model), model_parts(q))
    } else {
        q == a.model
    }
}

/// Trainer `b` is trainer `a` but for the gradients.
pub open spec fn all_but_grads(a: LlamaTrainer, b: LlamaTrainer) -> bool {
    &&& a.same_settings(b)
    &&& b.step_t == a.step_t
    &&& b.m == a.m
    &&& b.v == a.v
    &&& same_model(a.model, b.model)
    &&& model_parts(b.model) == model_parts(a.model)
}

/// What a sum over a minibatch is multiplied by.
pub open spec fn share_of(n: int) -> F32 {
    (F32 { bits: 0x3f80_0000 }).div_spec(of_int(n))
}

/// A step over a minibatch: the gradients of the runs are added one after the
/// other.
pub open spec fn serial_step_via<M: Math>(
    math: &M,
    a: LlamaTrainer,
    runs: Seq<Seq<usize>>,
    base: u64,
    loss: F32,
    b: LlamaTrainer,
    q: LlamaModel,
    losses: Seq<F32>,
    gs: Seq<Seq<Seq<F32>>>,
    mid: LlamaTrainer,
) -> bool {
    let n = runs.len() as int;
    &&& n > 0
    &&& takes_gradients_at(a, q)
    &&& are_gradients(math, q, runs, a.dropout, base, losses, gs, 0, n)
    &&& all_but_grads(a, mid)
    &&& mid.grads.parts() == times_all(folded(zero_parts(a.model), gs, 0, n), share_of(n))
    &&& applied(math, mid, b)
    &&& loss == sum_of(losses).mul_spec(share_of(n))
}

/// A step over a minibatch: the gradients of the runs are added one after the
/// other.
pub open spec fn serial_step<M: Math>(
    math: &M,
    a: LlamaTrainer,
    runs: Seq<Seq<usize>>,
    base: u64,
    loss: F32,
    b: LlamaTrainer,
) -> bool {
    exists|
        q: LlamaModel,
        losses: Seq<F32>,
        gs: Seq<Seq<Seq<F32>>>,
        mid: LlamaTrainer,
    | #[trigger]
        serial_step_via(math, a, runs, base, loss, b, q, losses, gs, mid)
}

/// Of the runs `from` up to `to` of a minibatch, run `k` is the first that is
/// refused; those before it have the losses and gradients given.
pub open spec fn stops_at<M: Math>(
    math: &M,
    m: LlamaModel,
    runs: Seq<Seq<usize>>,
    dropout: F32,
    base: u64,
    losses: Seq<F32>,
    gs: Seq<Seq<Seq<F32>>>,
    from: int,
    to: int,
    k: int,
) -> bool {
    &&& from <= k < to
    &&& are_gradients(math, m, runs, dropout, base, losses, gs, from, k)
    &&& run_fails(math, m, runs[k], dropout, run_seed(base, k))
}

/// Trainer `b` is trainer `a` but for the gradients, and for the matrices, which
/// are on int8 grids where gradients are taken there.
pub open spec fn all_but_grids(a: LlamaTrainer, b: LlamaTrainer) -> bool {
    &&& a.same_settings(b)
    &&& b.step_t == a.step_t
    &&& b.m == a.m
    &&& b.v == a.v
    &&& takes_gradients_at(a, b.model)
}

/// A step over a minibatch that is refused takes trainer `a` to trainer `b`: no
/// parameter moves, but matrices that were put on int8 grids stay there, and the
/// gradients of the runs before the refused one are added.
pub open spec fn serial_refused<M: Math>(
    math: &M,
    a: LlamaTrainer,
    runs: Seq<Seq<usize>>,
    base: u64,
    b: LlamaTrainer,
) -> bool {
    if runs.len() == 0 {
        b == a
    } else {
        &&& all_but_grids(a, b)
        &&& exists|losses: Seq<F32>, gs: Seq<Seq<Seq<F32>>>, k: int|
            {
                &&& #[trigger] stops_at(
                    math,
                    b.model,
                    runs,
                    a.dropout,
                    base,
                    losses,
                    gs,
                    0,
                    runs.len() as int,
                    k,
                )
                &&& b.grads.parts() == folded(zero_parts(a.model), gs, 0, k)
            }
    }
}

/// Adds the gradients of the runs `from` up to `to` of a minibatch to a list; the
/// losses, or an error, with the gradients of the runs before it added.
pub(crate) fn accumulate<M: Math>(
    math: &M,
    m: &LlamaModel,
    batch: &[&[usize]],
    dropout: F32,
    base: u64,
    from: usize,
    to: usize,
    acc: &mut Vec<Vec<F32>>,
) -> (r: Result<(Vec<F32>, Ghost<Seq<F32>>, Ghost<Seq<Seq<Seq<F32>>>>)>)
    requires
        trains(*m),
        from <= to <= batch@.len(),
        same_lens(rows_view(old(acc)@), model_parts(*m)),
    ensures
        same_lens(rows_view(final(acc)@), model_parts(*m)),
        match r {
            Ok(t) => {
                &&& t.1@.subrange(from as int, to as int) == t.0@
                &&& are_gradients(
                    math,
                    *m,
                    runs_of(batch@),
                    dropout,
                    base,
                    t.1@,
                    t.2@,
                    from as int,
                    to as int,
                )
                &&& rows_view(final(acc)@) == folded(
                    rows_view(old(acc)@),
                    t.2@,
                    from as int,
                    to as int,
                )
            },
            Err(e) => e is DimMismatch && exists|
                losses: Seq<F32>,
                gs: Seq<Seq<Seq<F32>>>,
                k: int,
            |
                {
                    &&& #[trigger] stops_at(
                        math,
                        *m,
                        runs_of(batch@),
                        dropout,
                        base,
                        losses,
                        gs,
                        from as int,
                        to as int,
                        k,
                    )
                    &&& rows_view(final(acc)@) == folded(rows_view(old(acc)@), gs, from as int, k)
                },
        },
{
    let ghost runs = runs_of(batch@);
    let ghost acc0 = rows_view(acc@);
    let ghost mut losses: Seq<F32> = Seq::new(runs.len(), |i: int| F32 { bits: 0 });
    let ghost mut gs: Seq<Seq<Seq<F32>>> = Seq::new(runs.len(), |i: int| Seq::empty());
    let mut out: Vec<F32> = Vec::new();
    let mut i: usize = from;
    while i < to
        invariant
            trains(*m),
            from <= i <= to <= batch@.len(),
            runs == runs_of(batch@),
            acc0 == rows_view(old(acc)@),
            same_lens(rows_view(acc@), model_parts(*m)),
            are_gradients(math, *m, runs, dropout, base, losses, gs, from as int, i as int),
            rows_view(acc@) == folded(acc0, gs, from as int, i as int),
            out@ == losses.subrange(from as int, i as int),
        decreases to - i,
    {
        let seed: u64 = base.wrapping_add(i as u64).wrapping_add(1);
        proof {
            assert(runs[i as int] == batch@[i as int]@);
            assert(seed == run_seed(base, i as int)) by {
                let a = base.wrapping_add(i as u64);
                assert(a as int == (base + i) % 0x1_0000_0000_0000_0000);
                assert(seed as int == (a + 1) % 0x1_0000_0000_0000_0000);
            }
        }
        let (loss, g) = match run_gradient(math, m, batch[i], dropout, seed) {
            Ok(t) => t,
            Err(e) => {
                assert(stops_at(
                    math,
                    *m,
                    runs,
                    dropout,
                    base,
                    losses,
                    gs,
                    from as int,
                    to as int,
                    i as int,
                ));
                return Err(e);
            },
        };
        proof {
            lemma_suits(g, *m);
        }
        let parts: Vec<Vec<F32>> = g.to_parts();
        proof {
            lemma_same_lens(rows_view(parts@), model_parts(*m), rows_view(acc@));
        }
        let ghost before = rows_view(acc@);
        let ghost gs0 = gs;
        let ghost losses0 = losses;
        add_parts(acc, &parts);
        out.push(loss);
        proof {
            gs = gs.update(i as int, rows_view(parts@));
            losses = losses.update(i as int, loss);
            lemma_same_lens_chain(rows_view(acc@), before, model_parts(*m));
            lemma_folded_same(acc0, gs0, gs, from as int, i as int);
            assert(rows_view(acc@) == folded(acc0, gs, from as int, i + 1));
            assert(out@ =~= losses.subrange(from as int, i + 1));
            assert forall|k: int| from <= k < i + 1 implies run_done(
                math,
                *m,
                runs[k],
                dropout,
                run_seed(base, k),
                #[trigger] losses[k],
                gs[k],
            ) by {
                if k < i {
                    assert(losses[k] == losses0[k] && gs[k] == gs0[k]);
                }
            }
        }
        i = i + 1;
    }
    Ok((out, Ghost(losses), Ghost(gs)))
}

pub(crate) proof fn lemma_same_lens(a: Seq<Seq<F32>>, m: Seq<Seq<F32>>, b: Seq<Seq<F32>>)
    requires
        same_lens(a, m),
        same_lens(b, m),
    ensures
        same_lens(a, b),
{
    assert forall|i: int| 0 <= i < a.len() implies (#[trigger] a[i]).len() == b[i].len() by {
        assert(b[i].len() == m[i].len());
    }
}

pub(crate) proof fn lemma_same_lens_chain(a: Seq<Seq<F32>>, b: Seq<Seq<F32>>, c: Seq<Seq<F32>>)
    requires
        same_lens(a, b),
        same_lens(b, c),
    ensures
        same_lens(a, c),
{
    assert forall|i: int| 0 <= i < a.len() implies (#[trigger] a[i]).len() == c[i].len() by {
        assert(b[i].len() == c[i].len());
    }
}

/// A sum depends on its terms alone.
pub(crate) proof fn lemma_folded_same(
    init: Seq<Seq<F32>>,
    a: Seq<Seq<Seq<F32>>>,
    b: Seq<Seq<Seq<F32>>>,
    from: int,
    to: int,
)
    requires
        forall|i: int| from <= i < to ==> #[trigger] b[i] == a[i],
    ensures
        folded(init, a, from, to) == folded(init, b, from, to),
    decreases to - from,
{
    if to > from {
        lemma_folded_same(init, a, b, from, to - 1);
    }
}

/// The zeros of a model depend on its sizes alone.
pub(crate) proof fn lemma_zero_parts(g: Buffers, m: LlamaModel, a: LlamaModel)
    requires
        params_plain(m),
        g.suits(m),
        all_zero(g.parts()),
        same_lens(model_parts(m), model_parts(a)),
    ensures
        g.parts() == zero_parts(a),
        same_lens(g.parts(), model_parts(m)),
{
    lemma_suits(g, m);
    assert forall|i: int| 0 <= i < g.parts().len() implies g.parts()[i] == zero_parts(a)[i] by {
        assert(g.parts()[i] == zeros_of(g.parts()[i].len()));
        assert(g.parts()[i].len() == model_parts(m)[i].len());
        assert(model_parts(m)[i].len() == model_parts(a)[i].len());
    }
    assert(g.parts() =~= zero_parts(a));
}

pub(crate) proof fn lemma_same_self(m: LlamaModel)
    ensures
        same_model(m, m),
        same_lens(model_parts(m), model_parts(m)),
{
}

impl LlamaTrainer {
    /// Moves the matrices onto int8 grids; the parameters as they were.
    pub(crate) fn quantize_weights(&mut self) -> (snap: Vec<Vec<F32>>)
        requires
            old(self).wf(),
        ensures
            final(self).wf(),
            *final(self) == (LlamaTrainer { model: final(self).model, ..*old(self) }),
            rows_view(snap@) == model_parts(old(self).model),
            same_model(old(self).model, final(self).model),
            same_lens(model_parts(final(self).model), model_parts(old(self).model)),
            is_quantized(
                old(self).model,
                model_parts(old(self).model),
                model_parts(final(self).model),
            ),
    {
        let ghost a = *self;
        let snap: Vec<Vec<F32>> = model_parts_exec(&self.model);
        let grid: Vec<Vec<F32>> = quantize_parts(&self.model, &snap);
        load_model(&mut self.model, &grid);
        proof {
            lemma_still_trains(a.model, self.model);
            lemma_still_suits(self.grads, a.model, self.model);
            lemma_still_suits(self.m, a.model, self.model);
            lemma_still_suits(self.v, a.model, self.model);
        }
        snap
    }

    /// Sets the gradients.
    fn load_grads(&mut self, parts: &Vec<Vec<F32>>)
        requires
            old(self).wf(),
            same_lens(rows_view(parts@), model_parts(old(self).model)),
        ensures
            final(self).wf(),
            *final(self) == (LlamaTrainer { grads: final(self).grads, ..*old(self) }),
            final(self).grads.parts() == rows_view(parts@),
    {
        let ghost a = *self;
        proof {
            lemma_suits(self.grads, self.model);
        }
        self.grads.load_parts(parts);
        proof {
            lemma_same_self(self.model);
            lemma_loaded_suits(a.grads, self.grads, a.model, self.model);
        }
    }

    /// Sets the parameters.
    fn restore_weights(&mut self, snap: &Vec<Vec<F32>>)
        requires
            old(self).wf(),
            same_lens(rows_view(snap@), model_parts(old(self).model)),
        ensures
            final(self).wf(),
            *final(self) == (LlamaTrainer { model: final(self).model, ..*old(self) }),
            same_model(old(self).model, final(self).model),
            model_parts(final(self).model) == rows_view(snap@),
    {
        let ghost a = *self;
        load_model(&mut self.model, snap);
        proof {
            lemma_still_trains(a.model, self.model);
            lemma_still_suits(self.grads, a.model, self.model);
            lemma_still_suits(self.m, a.model, self.model);
            lemma_still_suits(self.v, a.model, self.model);
        }
    }

    /// Puts back the parameters, if they were moved.
    fn put_back(&mut self, snap: Option<Vec<Vec<F32>>>, Ghost(a): Ghost<LlamaTrainer>)
        requires
            old(self).wf(),
            same_model(a.model, old(self).model),
            match snap {
                Some(s) => rows_view(s@) == model_parts(a.model) && same_lens(
                    model_parts(old(self).model),
                    model_parts(a.model),
                ),
                None => old(self).model == a.model,
            },
        ensures
            final(self).wf(),
            *final(self) == (LlamaTrainer { model: final(self).model, ..*old(self) }),
            same_model(a.model, final(self).model),
            model_parts(final(self).model) == model_parts(a.model),
            snap is None ==> final(self).model == a.model,
    {
        match snap {
            Some(s) => {
                proof {
                    lemma_same_lens_back(model_parts(self.model), model_parts(a.model));
                }
                let ghost q = self.model;
                self.restore_weights(&s);
                proof {
                    lemma_same_model_chain(a.model, q, self.model);
                }
            },
            None => {},
        }
    }

    /// Puts back the parameters, if they were moved, sets the gradients and makes
    /// a step.
    pub(crate) fn finish_step<M: Math>(
        &mut self,
        math: &M,
        snap: Option<Vec<Vec<F32>>>,
        grads: &Vec<Vec<F32>>,
        Ghost(a): Ghost<LlamaTrainer>,
    )
        requires
            old(self).wf(),
            a.wf(),
            old(self).step_t < u64::MAX,
            same_lens(rows_view(grads@), model_parts(old(self).model)),
            a.same_settings(*old(self)),
            old(self).step_t == a.step_t && old(self).m == a.m && old(self).v == a.v,
            same_model(a.model, old(self).model),
            match snap {
                Some(s) => rows_view(s@) == model_parts(a.model) && same_lens(
                    model_parts(old(self).model),
                    model_parts(a.model),
                ),
                None => old(self).model == a.model,
            },
        ensures
            final(self).wf(),
            exists|mid: LlamaTrainer|
                {
                    &&& all_but_grads(a, mid)
                    &&& mid.grads.parts() == rows_view(grads@)
                    &&& #[trigger] applied(math, mid, *final(self))
                },
    {
        self.load_grads(grads);
        self.put_back(snap, Ghost(a));
        let ghost mid = *self;
        assert(all_but_grads(a, mid));
        self.apply_step(math);
        assert(applied(math, mid, *self));
    }

    /// One AdamW step over a minibatch, with the seed of the masks. The mean
    /// loss.
    pub(crate) fn train_batch_seeded<M: Math>(
        &mut self,
        math: &M,
        batch: &[&[usize]],
        base_seed: u64,
    ) -> (r: Result<F32>)
        requires
            old(self).wf(),
            old(self).step_t < u64::MAX,
        ensures
            final(self).wf(),
            match r {
                Ok(loss) => serial_step(
                    math,
                    *old(self),
                    runs_of(batch@),
                    base_seed,
                    loss,
                    *final(self),
                ),
                Err(e) => e is DimMismatch && serial_refused(
                    math,
                    *old(self),
                    runs_of(batch@),
                    base_seed,
                    *final(self),
                ),
            },
    {
        let ghost a = *self;
        if batch.len() == 0 {
            return Err(InferError::DimMismatch("empty minibatch".to_owned()));
        }
        let dropout: F32 = self.dropout;
        let snap: Option<Vec<Vec<F32>>> = if self.qat {
            Some(self.quantize_weights())
        } else {
            None
        };
        let ghost q = self.model;
        proof {
            lemma_same_self(a.model);
            assert(takes_gradients_at(a, q));
        }
        let zero: Buffers = Buffers::zeros(&self.model);
        proof {
            lemma_zero_parts(zero, q, a.model);
        }
        let mut acc: Vec<Vec<F32>> = zero.to_parts();
        let (losses, Ghost(ls), Ghost(gs)) = match accumulate(
            math,
            &self.model,
            batch,
            dropout,
            base_seed,
            0,
            batch.len(),
            &mut acc,
        ) {
            Ok(t) => t,
            Err(e) => {
                self.load_grads(&acc);
                return Err(e);
            },
        };
        let inv_b: F32 = F32::one().div(F32::from_u64(batch.len() as u64));
        let mean: Vec<Vec<F32>> = scale_parts(&acc, inv_b);
        proof {
            lemma_same_lens_chain(rows_view(mean@), rows_view(acc@), model_parts(q));
        }
        self.finish_step(math, snap, &mean, Ghost(a));
        let loss: F32 = sum(losses.as_slice()).mul(inv_b);
        proof {
            let n = runs_of(batch@).len() as int;
            assert(ls.subrange(0, n) =~= ls);
            let mid = choose|mid: LlamaTrainer|
                {
                    &&& all_but_grads(a, mid)
                    &&& mid.grads.parts() == rows_view(mean@)
                    &&& #[trigger] applied(math, mid, *self)
                };
            assert(serial_step_via(
                math,
                a,
                runs_of(batch@),
                base_seed,
                loss,
                *self,
                q,
                ls,
                gs,
                mid,
            ));
        }
        Ok(loss)
    }

    /// One AdamW step over a minibatch: the gradients of the runs are averaged.
    /// The mean loss.
    pub fn train_batch<M: Math>(&mut self, math: &M, batch: &[&[usize]]) -> (r: Result<F32>)
        requires
            old(self).wf(),
            old(self).step_t < u64::MAX,
        ensures
            final(self).wf(),
            match r {
                Ok(loss) => serial_step(
                    math,
                    *old(self),
                    runs_of(batch@),
                    0,
                    loss,
                    *final(self),
                ),
                Err(e) => e is DimMismatch && serial_refused(
                    math,
                    *old(self),
                    runs_of(batch@),
                    0,
                    *final(self),
                ),
            },
    {
        self.train_batch_seeded(math, batch, 0)
    }

    /// One AdamW step on a single run of tokens. The loss before the step.
    pub fn train_step<M: Math>(&mut self, math: &M, tokens: &[usize]) -> (r: Result<F32>)
        requires
            old(self).wf(),
            old(self).step_t < u64::MAX,
        ensures
            final(self).wf(),
            match r {
                Ok(loss) => serial_step(
                    math,
                    *old(self),
                    seq![tokens@],
                    0,
                    loss,
                    *final(self),
                ),
                Err(e) => e is DimMismatch && serial_refused(
                    math,
                    *old(self),
                    seq![tokens@],
                    0,
                    *final(self),
                ),
            },
    {
        let mut batch: Vec<&[usize]> = Vec::new();
        batch.push(tokens);
        assert(runs_of(batch@) =~= seq![tokens@]);
        self.train_batch(math, batch.as_slice())
    }
}

pub(crate) proof fn lemma_same_lens_back(a: Seq<Seq<F32>>, b: Seq<Seq<F32>>)
    requires
        same_lens(a, b),
    ensures
        same_lens(b, a),
{
    assert forall|i: int| 0 <= i < b.len() implies (#[trigger] b[i]).len() == a[i].len() by {
        assert(a[i].len() == b[i].len());
    }
}

pub(crate) proof fn lemma_same_model_chain(a: LlamaModel, b: LlamaModel, c: LlamaModel)
    requires
        same_model(a, b),
        same_model(b, c),
    ensures
        same_model(a, c),
{
    assert forall|l: int| 0 <= l < a.blocks@.len() implies same_block(
        a.blocks@[l],
        #[trigger] c.blocks@[l],
    ) by {
        assert(same_block(a.blocks@[l], b.blocks@[l]));
        assert(same_block(b.blocks@[l], c.blocks@[l]));
    }
}

} // verus!
