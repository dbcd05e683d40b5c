//! Optimizers, gradient clipping and learning-rate schedules.
use crate::error::{InferError, Result};
use crate::float::{
    lemma_code, lemma_magnitude_increases, lemma_round_exists, lemma_round_unique, magnitude,
    nearest, of_int, round, F32, INF_CODE, ONE_CODE,
};
use crate::math::{is_cos, is_norm, is_powi, Math};
use crate::ops::append_row;
use crate::tensor::{copy_sizes, same_sizes, Tensor};
use vstd::arithmetic::power2::{
    lemma2_to64, lemma_pow2_adds, lemma_pow2_pos, lemma_pow2_strictly_increases, lemma_pow2_unfold,
    pow2,
};
use vstd::prelude::*;

verus! {

// ---------------------------------------------------------------------------
// Clipping
// ---------------------------------------------------------------------------

/// The elements of the first `n` tensors, one behind the other.
pub open spec fn joined_data(grads: Seq<Tensor>, n: nat) -> Seq<F32>
    decreases n,
{
    if n == 0 {
        Seq::empty()
    } else {
        joined_data(grads, (n - 1) as nat) + grads[n - 1].data@
    }
}

/// Whether gradients of a norm are scaled down.
pub open spec fn is_clipped(norm: F32, max_norm: F32) -> bool {
    (F32 { bits: 0 }).lt_spec(max_norm) && norm.finite_spec() && max_norm.lt_spec(norm)
}

/// The elements, each times a factor.
pub open spec fn times(s: Seq<F32>, f: F32) -> Seq<F32> {
    s.map_values(|x: F32| x.mul_spec(f))
}

/// Scales all gradients down so that their norm is no more than `max_norm`, and
/// returns the norm that they had. A limit that is not positive is none.
pub fn clip_grad_norm<M: Math>(m: &M, grads: &mut Vec<Tensor>, max_norm: F32) -> (norm: F32)
    ensures
        exists|v: Vec<F32>|
            v@ == joined_data(old(grads)@, old(grads)@.len()) && #[trigger] is_norm(m, v, norm),
        final(grads)@.len() == old(grads)@.len(),
        forall|i: int|
            0 <= i < old(grads)@.len() ==> (#[trigger] final(grads)@[i]).shape@ == old(
                grads,
            )@[i].shape@ && final(grads)@[i].data@ == if is_clipped(norm, max_norm) {
                times(old(grads)@[i].data@, max_norm.div_spec(norm))
            } else {
                old(grads)@[i].data@
            },
{
    let ghost start = grads@;
    let mut all: Vec<F32> = Vec::new();
    let mut i: usize = 0;
    while i < grads.len()
        invariant
            i <= grads@.len(),
            all@ == joined_data(grads@, i as nat),
        decreases grads@.len() - i,
    {
        append_row(&mut all, grads[i].data.as_slice());
        i = i + 1;
    }
    let norm: F32 = m.norm(&all);
    assert(is_norm(m, all, norm));
    if F32::zero().lt(max_norm) && norm.is_finite() && max_norm.lt(norm) {
        let scale: F32 = max_norm.div(norm);
        let mut k: usize = 0;
        while k < grads.len()
            invariant
                k <= grads@.len() == start.len(),
                forall|j: int|
                    0 <= j < k ==> (#[trigger] grads@[j]).shape@ == start[j].shape@
                        && grads@[j].data@ == times(start[j].data@, scale),
                forall|j: int| k <= j < start.len() ==> #[trigger] grads@[j] == start[j],
            decreases grads@.len() - k,
        {
            let data: Vec<F32> = scaled(grads[k].data.as_slice(), scale);
            let shape: Vec<usize> = copy_sizes(grads[k].shape.as_slice());
            grads.set(k, Tensor { shape, data });
            k = k + 1;
        }
    }
    norm
}

/// The elements, each times a factor.
pub(crate) fn scaled(s: &[F32], f: F32) -> (r: Vec<F32>)
    ensures
        r@ == times(s@, f),
{
    let mut r: Vec<F32> = Vec::with_capacity(s.len());
    let mut i: usize = 0;
    while i < s.len()
        invariant
            i <= s@.len(),
            r@.len() == i,
            forall|k: int| 0 <= k < i ==> #[trigger] r@[k] == s@[k].mul_spec(f),
        decreases s@.len() - i,
    {
        r.push(s[i].mul(f));
        i = i + 1;
    }
    assert(r@ =~= times(s@, f));
    r
}

// ---------------------------------------------------------------------------
// Gradient descent
// ---------------------------------------------------------------------------

/// Gradient descent with momentum.
#[derive(Clone, Copy, Debug)]
pub struct Sgd {
    pub lr: F32,
    pub momentum: F32,
}

impl Sgd {
    /// Without momentum.
    pub fn new(lr: F32) -> (s: Self)
        ensures
            s.lr == lr,
            s.momentum == (F32 { bits: 0 }),
    {
        Sgd { lr, momentum: F32::zero() }
    }

    /// With momentum.
    pub fn with_momentum(lr: F32, m: F32) -> (s: Self)
        ensures
            s.lr == lr,
            s.momentum == m,
    {
        Sgd { lr, momentum: m }
    }

    /// The velocity after a gradient.
    pub open spec fn velocity(self, v: F32, g: F32) -> F32 {
        self.momentum.mul_spec(v).add_spec(g)
    }

    /// One step: the velocity takes up the gradient, and the parameter moves
    /// against the velocity.
    pub fn step(&self, param: &mut Tensor, grad: &Tensor, vel: &mut Tensor) -> (r: Result<()>)
        requires
            old(param).wf(),
            grad.wf(),
            old(vel).wf(),
        ensures
            r is Ok <==> old(param).shape@ == grad.shape@ && old(param).shape@ == old(vel).shape@,
            r is Err ==> r->Err_0 is DimMismatch && *final(param) == *old(param) && *final(vel)
                == *old(vel),
            r is Ok ==> {
                &&& final(param).shape == old(param).shape
                &&& final(vel).shape == old(vel).shape
                &&& final(param).data@.len() == old(param).data@.len()
                &&& final(vel).data@.len() == old(vel).data@.len()
                &&& forall|i: int|
                    0 <= i < old(param).data@.len() ==> #[trigger] final(vel).data@[i]
                        == self.velocity(old(vel).data@[i], grad.data@[i])
                &&& forall|i: int|
                    0 <= i < old(param).data@.len() ==> #[trigger] final(param).data@[i] == old(
                        param,
                    ).data@[i].sub_spec(
                        self.lr.mul_spec(self.velocity(old(vel).data@[i], grad.data@[i])),
                    )
            },
    {
        if !same_sizes(param.shape.as_slice(), grad.shape.as_slice()) || !same_sizes(
            param.shape.as_slice(),
            vel.shape.as_slice(),
        ) {
            return Err(InferError::DimMismatch("step: shapes differ".to_owned()));
        }
        let n: usize = param.data.len();
        let ghost p0 = param.data@;
        let ghost v0 = vel.data@;
        let mut i: usize = 0;
        while i < n
            invariant
                i <= n == p0.len() == v0.len() == grad.data@.len(),
                param.shape == old(param).shape,
                vel.shape == old(vel).shape,
                param.data@.len() == n,
                vel.data@.len() == n,
                forall|k: int|
                    0 <= k < i ==> #[trigger] vel.data@[k] == self.velocity(v0[k], grad.data@[k]),
                forall|k: int|
                    0 <= k < i ==> #[trigger] param.data@[k] == p0[k].sub_spec(
                        self.lr.mul_spec(self.velocity(v0[k], grad.data@[k])),
                    ),
                forall|k: int| i <= k < n ==> #[trigger] vel.data@[k] == v0[k],
                forall|k: int| i <= k < n ==> #[trigger] param.data@[k] == p0[k],
            decreases n - i,
        {
            let v: F32 = self.momentum.mul(vel.data[i]).add(grad.data[i]);
            let p: F32 = param.data[i].sub(self.lr.mul(v));
            vel.data.set(i, v);
            param.data.set(i, p);
            i = i + 1;
        }
        Ok(())
    }
}

// ---------------------------------------------------------------------------
// Learning rate
// ---------------------------------------------------------------------------

/// The shape of the decay behind the warm-up.
#[derive(Clone, Copy, Debug, PartialEq, Eq, Structural)]
pub enum LrDecay {
    Cosine,
    Linear,
}

/// A learning rate that grows in a straight line to its base and decays to its
/// least.
#[derive(Clone, Copy, Debug)]
pub struct LrSchedule {
    pub base_lr: F32,
    pub min_lr: F32,
    pub warmup_steps: u64,
    pub total_steps: u64,
    pub decay: LrDecay,
}

impl LrSchedule {
    /// Decay along a cosine to zero.
    pub fn warmup_cosine(base_lr: F32, warmup_steps: u64, total_steps: u64) -> (s: Self)
        ensures
            s == (LrSchedule {
                base_lr,
                min_lr: F32 { bits: 0 },
                warmup_steps,
                total_steps,
                decay: LrDecay::Cosine,
            }),
    {
        LrSchedule {
            base_lr,
            min_lr: F32::zero(),
            warmup_steps,
            total_steps,
            decay: LrDecay::Cosine,
        }
    }

    /// Decay along a line to zero.
    pub fn warmup_linear(base_lr: F32, warmup_steps: u64, total_steps: u64) -> (s: Self)
        ensures
            s == (LrSchedule {
                base_lr,
                min_lr: F32 { bits: 0 },
                warmup_steps,
                total_steps,
                decay: LrDecay::Linear,
            }),
    {
        LrSchedule {
            base_lr,
            min_lr: F32::zero(),
            warmup_steps,
            total_steps,
            decay: LrDecay::Linear,
        }
    }

    /// How far the decay has come at a step behind the warm-up, before the end.
    pub open spec fn progress(self, step: u64) -> F32 {
        of_int(step - self.warmup_steps).div_spec(of_int(self.total_steps - self.warmup_steps))
    }

    /// What of the way from the least to the base rate is left.
    pub open spec fn is_factor<M: Math>(self, m: &M, step: u64, f: F32) -> bool {
        match self.decay {
            LrDecay::Linear => f == F32 { bits: 0x3f80_0000 }.sub_spec(self.progress(step)),
            LrDecay::Cosine => exists|c: F32|
                #[trigger] is_cos(m, F32 { bits: 0x4049_0fdb }.mul_spec(self.progress(step)), c)
                    && f == F32 { bits: 0x3f00_0000 }.mul_spec(
                    F32 { bits: 0x3f80_0000 }.add_spec(c),
                ),
        }
    }

    /// The rate at a step that is not zero.
    pub open spec fn is_rate_at<M: Math>(self, m: &M, step: u64, r: F32) -> bool {
        if step <= self.warmup_steps {
            r == self.base_lr.mul_spec(
                of_int(step as int).div_spec(of_int(self.warmup_steps as int)),
            )
        } else if step >= self.total_steps {
            r == self.min_lr
        } else {
            exists|f: F32| #[trigger]
                self.is_factor(m, step, f) && r == self.min_lr.add_spec(
                    self.base_lr.sub_spec(self.min_lr).mul_spec(f),
                )
        }
    }

    /// The rate at a step; steps are counted from one.
    pub open spec fn is_rate<M: Math>(self, m: &M, step: u64, r: F32) -> bool {
        if step == 0 {
            self.is_rate_at(m, 1, r)
        } else {
            self.is_rate_at(m, step, r)
        }
    }

    /// The rate at a step; steps are counted from one.
    pub fn lr_at<M: Math>(&self, m: &M, step: u64) -> (r: F32)
        ensures
            self.is_rate(m, step, r),
    {
        let s: u64 = if step < 1 {
            1
        } else {
            step
        };
        if s <= self.warmup_steps {
            return self.base_lr.mul(F32::from_u64(s).div(F32::from_u64(self.warmup_steps)));
        }
        if s >= self.total_steps {
            return self.min_lr;
        }
        let progress: F32 = F32::from_u64(s - self.warmup_steps).div(
            F32::from_u64(self.total_steps - self.warmup_steps),
        );
        let f: F32 = match self.decay {
            LrDecay::Linear => F32::one().sub(progress),
            LrDecay::Cosine => {
                let x: F32 = (F32 { bits: 0x4049_0fdb }).mul(progress);
                let c: F32 = m.cos(x);
                assert(is_cos(m, x, c));
                (F32 { bits: 0x3f00_0000 }).mul(F32::one().add(c))
            },
        };
        proof {
            assert(progress == self.progress(s));
            assert(self.is_factor(m, s, f));
        }
        self.min_lr.add(self.base_lr.sub(self.min_lr).mul(f))
    }
}

// ---------------------------------------------------------------------------
// Adam
// ---------------------------------------------------------------------------

/// Adam with bias correction and, if asked for, decoupled weight decay.
#[derive(Clone, Copy, Debug)]
pub struct Adam {
    pub lr: F32,
    pub beta1: F32,
    pub beta2: F32,
    pub eps: F32,
    pub weight_decay: F32,
}

/// The exponent of a step.
pub open spec fn exponent_of(t: u64) -> i32 {
    if t > i32::MAX {
        i32::MAX
    } else {
        t as i32
    }
}

impl Adam {
    /// The usual settings, without weight decay.
    pub fn new(lr: F32) -> (a: Self)
        ensures
            a == (Adam {
                lr,
                beta1: F32 { bits: 0x3f66_6666 },
                beta2: F32 { bits: 0x3f7f_be77 },
                eps: F32 { bits: 0x322b_cc77 },
                weight_decay: F32 { bits: 0 },
            }),
    {
        Adam {
            lr,
            beta1: F32 { bits: 0x3f66_6666 },
            beta2: F32 { bits: 0x3f7f_be77 },
            eps: F32 { bits: 0x322b_cc77 },
            weight_decay: F32::zero(),
        }
    }

    /// The usual settings, with weight decay.
    pub fn with_weight_decay(lr: F32, weight_decay: F32) -> (a: Self)
        ensures
            a == (Adam {
                lr,
                beta1: F32 { bits: 0x3f66_6666 },
                beta2: F32 { bits: 0x3f7f_be77 },
                eps: F32 { bits: 0x322b_cc77 },
                weight_decay,
            }),
    {
        let a: Adam = Adam::new(lr);
        Adam { lr: a.lr, beta1: a.beta1, beta2: a.beta2, eps: a.eps, weight_decay }
    }

    /// The first moment after a gradient.
    pub open spec fn first(self, m: F32, g: F32) -> F32 {
        self.beta1.mul_spec(m).add_spec(
            F32 { bits: 0x3f80_0000 }.sub_spec(self.beta1).mul_spec(g),
        )
    }

    /// The second moment after a gradient.
    pub open spec fn second(self, v: F32, g: F32) -> F32 {
        self.beta2.mul_spec(v).add_spec(
            F32 { bits: 0x3f80_0000 }.sub_spec(self.beta2).mul_spec(g).mul_spec(g),
        )
    }

    /// The parameter after a step, from its moments and the two corrections.
    pub open spec fn moved(self, p: F32, m: F32, v: F32, bc1: F32, bc2: F32) -> F32 {
        let plain = self.lr.mul_spec(m.div_spec(bc1)).div_spec(
            v.div_spec(bc2).sqrt_spec().add_spec(self.eps),
        );
        let update = if self.weight_decay.zero_spec() {
            plain
        } else {
            plain.add_spec(self.lr.mul_spec(self.weight_decay).mul_spec(p))
        };
        p.sub_spec(update)
    }

    /// `bc1` and `bc2` correct the moments at step `t`.
    pub open spec fn corrects<M: Math>(self, math: &M, t: u64, bc1: F32, bc2: F32) -> bool {
        exists|p1: F32, p2: F32|
            {
                &&& #[trigger] is_powi(math, self.beta1, exponent_of(t), p1)
                &&& #[trigger] is_powi(math, self.beta2, exponent_of(t), p2)
                &&& bc1 == F32 { bits: 0x3f80_0000 }.sub_spec(p1)
                &&& bc2 == F32 { bits: 0x3f80_0000 }.sub_spec(p2)
            }
    }

    /// The parameters and moments behind a step, from those before it.
    pub open spec fn stepped(
        self,
        bc1: F32,
        bc2: F32,
        g: Seq<F32>,
        before: (Seq<F32>, Seq<F32>, Seq<F32>),
        after: (Seq<F32>, Seq<F32>, Seq<F32>),
        n: int,
    ) -> bool {
        &&& after.0.len() == before.0.len()
        &&& after.1.len() == before.1.len()
        &&& after.2.len() == before.2.len()
        &&& forall|i: int|
            0 <= i < n ==> #[trigger] after.1[i] == self.first(before.1[i], g[i])
        &&& forall|i: int|
            0 <= i < n ==> #[trigger] after.2[i] == self.second(before.2[i], g[i])
        &&& forall|i: int|
            0 <= i < n ==> #[trigger] after.0[i] == self.moved(
                before.0[i],
                self.first(before.1[i], g[i]),
                self.second(before.2[i], g[i]),
                bc1,
                bc2,
            )
        &&& forall|i: int| n <= i < before.0.len() ==> #[trigger] after.0[i] == before.0[i]
        &&& forall|i: int| n <= i < before.1.len() ==> #[trigger] after.1[i] == before.1[i]
        &&& forall|i: int| n <= i < before.2.len() ==> #[trigger] after.2[i] == before.2[i]
    }

    /// One step: the moments take up the gradient, and the parameter moves.
    pub fn step<M: Math>(
        &self,
        math: &M,
        t: u64,
        param: &mut Tensor,
        grad: &Tensor,
        m: &mut Tensor,
        v: &mut Tensor,
    ) -> (r: Result<()>)
        requires
            old(param).wf(),
            grad.wf(),
            old(m).wf(),
            old(v).wf(),
        ensures
            r is Ok <==> t > 0 && old(param).shape@ == grad.shape@ && old(param).shape@ == old(
                m,
            ).shape@ && old(param).shape@ == old(v).shape@,
            r is Err ==> r->Err_0 is DimMismatch && *final(param) == *old(param) && *final(m)
                == *old(m) && *final(v) == *old(v),
            r is Ok ==> {
                &&& final(param).shape == old(param).shape
                &&& final(m).shape == old(m).shape
                &&& final(v).shape == old(v).shape
                &&& exists|bc1: F32, bc2: F32|
                    #[trigger] self.corrects(math, t, bc1, bc2) && self.stepped(
                        bc1,
                        bc2,
                        grad.data@,
                        (old(param).data@, old(m).data@, old(v).data@),
                        (final(param).data@, final(m).data@, final(v).data@),
                        grad.data@.len() as int,
                    )
            },
    {
        if !same_sizes(param.shape.as_slice(), grad.shape.as_slice()) || !same_sizes(
            param.shape.as_slice(),
            m.shape.as_slice(),
        ) || !same_sizes(param.shape.as_slice(), v.shape.as_slice()) {
            return Err(InferError::DimMismatch("adam step: shapes differ".to_owned()));
        }
        if t == 0 {
            return Err(InferError::DimMismatch("adam timestep must be ≥ 1".to_owned()));
        }
        let (bc1, bc2) = self.corrections(math, t);
        self.step_numbers(
            bc1,
            bc2,
            &mut param.data,
            grad.data.as_slice(),
            &mut m.data,
            &mut v.data,
        );
        Ok(())
    }

    /// What the moments are divided by at step `t`.
    pub(crate) fn corrections<M: Math>(&self, math: &M, t: u64) -> (r: (F32, F32))
        ensures
            self.corrects(math, t, r.0, r.1),
    {
        let e: i32 = if t > 0x7fff_ffff {
            0x7fff_ffff
        } else {
            t as i32
        };
        let p1: F32 = math.powi(self.beta1, e);
        let p2: F32 = math.powi(self.beta2, e);
        proof {
            assert(is_powi(math, self.beta1, exponent_of(t), p1));
            assert(is_powi(math, self.beta2, exponent_of(t), p2));
        }
        (F32::one().sub(p1), F32::one().sub(p2))
    }

    /// One step of a list of parameters.
    pub(crate) fn step_numbers(
        &self,
        bc1: F32,
        bc2: F32,
        p: &mut Vec<F32>,
        grad: &[F32],
        m: &mut Vec<F32>,
        v: &mut Vec<F32>,
    )
        requires
            old(p)@.len() == grad@.len(),
            old(m)@.len() == grad@.len(),
            old(v)@.len() == grad@.len(),
        ensures
            self.stepped(
                bc1,
                bc2,
                grad@,
                (old(p)@, old(m)@, old(v)@),
                (final(p)@, final(m)@, final(v)@),
                grad@.len() as int,
            ),
    {
        let n: usize = grad.len();
        let ghost p0 = p@;
        let ghost m0 = m@;
        let ghost v0 = v@;
        let keep: F32 = F32::one().sub(self.beta1);
        let keep2: F32 = F32::one().sub(self.beta2);
        let decays: bool = !self.weight_decay.same_value(F32::zero());
        let mut i: usize = 0;
        while i < n
            invariant
                i <= n == p0.len() == m0.len() == v0.len() == grad@.len(),
                keep == (F32 { bits: 0x3f80_0000 }).sub_spec(self.beta1),
                keep2 == (F32 { bits: 0x3f80_0000 }).sub_spec(self.beta2),
                decays == !self.weight_decay.zero_spec(),
                self.stepped(bc1, bc2, grad@, (p0, m0, v0), (p@, m@, v@), i as int),
            decreases n - i,
        {
            let g: F32 = grad[i];
            let m1: F32 = self.beta1.mul(m[i]).add(keep.mul(g));
            let v1: F32 = self.beta2.mul(v[i]).add(keep2.mul(g).mul(g));
            let m_hat: F32 = m1.div(bc1);
            let v_hat: F32 = v1.div(bc2);
            let mut update: F32 = self.lr.mul(m_hat).div(v_hat.sqrt().add(self.eps));
            if decays {
                update = update.add(self.lr.mul(self.weight_decay).mul(p[i]));
            }
            let x: F32 = p[i].sub(update);
            m.set(i, m1);
            v.set(i, v1);
            p.set(i, x);
            i = i + 1;
        }
    }
}

/// Without decay a step is that of the plain optimizer.
pub proof fn zero_decay_is_plain(a: Adam, p: F32, m: F32, v: F32, bc1: F32, bc2: F32)
    requires
        a.weight_decay.zero_spec(),
    ensures
        a.moved(p, m, v, bc1, bc2) == (Adam { weight_decay: F32 { bits: 0 }, ..a }).moved(
            p,
            m,
            v,
            bc1,
            bc2,
        ),
{
}

// ---------------------------------------------------------------------------
// Where a schedule peaks and ends
// ---------------------------------------------------------------------------

/// A multiple of a magnitude divided by the factor is that magnitude.
proof fn lemma_round_multiple(k: int, c: int)
    requires
        k > 0,
        0 <= c < INF_CODE,
    ensures
        round(k * magnitude(c), k) == c,
{
    let mid = magnitude(c);
    let above = magnitude(c + 1);
    lemma_magnitude_increases(c, c + 1);
    assert(2 * (k * mid) < (mid + above) * k) by (nonlinear_arith)
        requires
            k > 0,
            mid < above,
    ;
    if c > 0 {
        let below = magnitude(c - 1);
        lemma_magnitude_increases(c - 1, c);
        assert((below + mid) * k < 2 * (k * mid)) by (nonlinear_arith)
            requires
                k > 0,
                below < mid,
        ;
    }
    assert(nearest(k * mid, k, c));
    lemma_round_unique(k * mid, k, c);
}

/// The magnitude of one.
proof fn lemma_one()
    ensures
        magnitude(ONE_CODE as int) == pow2(149),
{
    lemma2_to64();
    lemma_code(0x80_0000, 126);
    lemma_pow2_adds(23, 126);
}

/// A number times one is itself.
pub(crate) proof fn lemma_times_one(x: F32)
    requires
        !x.nan_spec(),
    ensures
        x.mul_spec(F32 { bits: ONE_CODE }) == x,
{
    reveal(F32::mul_spec);
    lemma_one();
    lemma_pow2_pos(149);
    if x.finite_spec() {
        let p = pow2(149) as int;
        let a = x.mag();
        assert(a * p == p * a) by (nonlinear_arith);
        lemma_round_multiple(p, x.code_spec());
    }
}

/// A positive count is a positive finite number.
proof fn lemma_count(n: int)
    requires
        0 < n < 0x1_0000_0000_0000_0000,
    ensures
        of_int(n).finite_spec(),
        !of_int(n).zero_spec(),
        !of_int(n).neg_spec(),
        of_int(n).mag() > 0,
{
    reveal(of_int);
    lemma2_to64();
    lemma_pow2_pos(149);
    let p = pow2(149) as int;
    let num = n * p;
    assert(num >= p) by (nonlinear_arith)
        requires
            n >= 1,
            p > 0,
            num == n * p,
    ;
    let c = round(num, 1);
    lemma_round_exists(num, 1);
    lemma_code(0, 0);
    lemma_pow2_strictly_increases(1, 149);
    assert(c > 0);
    if c == INF_CODE {
        lemma_code(0x80_0000, 254);
        lemma_code(0xff_ffff, 253);
        lemma_pow2_adds(23, 254);
        lemma_pow2_adds(64, 149);
        lemma_pow2_strictly_increases(214, 277);
        lemma_pow2_unfold(214);
        let q = pow2(64) as int;
        assert(num < q * p) by (nonlinear_arith)
            requires
                n < q,
                p > 0,
                num == n * p,
        ;
        lemma_magnitude_increases(0, INF_CODE - 1);
    }
    lemma_magnitude_increases(0, c);
}

/// A schedule reaches its rate exactly at the end of the warm-up, and stays at its
/// least rate from the last step on.
pub proof fn schedules_peak_after_warm_up_and_end_at_the_least_rate<M: Math>(
    s: LrSchedule,
    m: &M,
    step: u64,
    r: F32,
)
    requires
        s.is_rate(m, step, r),
        !s.base_lr.nan_spec(),
    ensures
        step == s.warmup_steps && step > 0 ==> r == s.base_lr,
        step > s.warmup_steps && step >= s.total_steps && step > 0 ==> r == s.min_lr,
{
    if step == s.warmup_steps && step > 0 {
        let n = step as int;
        lemma_count(n);
        lemma_one();
        let k = of_int(n).mag();
        assert(of_int(n).div_spec(of_int(n)) == (F32 { bits: ONE_CODE })) by {
            reveal(F32::div_spec);
            lemma_round_multiple(k, ONE_CODE as int);
        }
        lemma_times_one(s.base_lr);
    }
}

} // verus!
