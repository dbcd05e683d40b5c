//! Epochs of training over the windows of a token stream.
use crate::decoder::LlamaModel;
use crate::error::Result;
use crate::float::{of_int, F32};
use crate::llm_train::{
    accumulate, all_but_grads, all_but_grids, applied, are_gradients, lemma_folded_same,
    lemma_same_lens, lemma_same_lens_chain, lemma_same_self, run_done, run_fails, run_seed, runs_of,
    serial_refused, serial_step, serial_step_via, share_of, some_run_fails, takes_gradients_at,
    LlamaTrainer,
};
use crate::math::Math;
use crate::ops::{mismatch, sum, sum_of};
use crate::rng::{scramble, shuffled, state_after, Rng};
use crate::train_attention::rows_view;
use crate::train_model::{run_gradient, trains};
use crate::train_params::{lemma_suits, model_parts, same_lens};
use crate::train_steps::{add_parts, folded, scale_parts, times_all};
use vstd::prelude::*;
use vstd::slice::slice_subrange;

verus! {

/// The quotient, rounded up.
pub open spec fn ceil_div(n: int, k: int) -> int {
    if n % k == 0 {
        n / k
    } else {
        n / k + 1
    }
}

fn ceil_div_exec(n: usize, k: usize) -> (r: usize)
    requires
        k > 0,
    ensures
        r == ceil_div(n as int, k as int),
        n > 0 ==> r > 0,
        r <= n,
        r * k >= n,
        n > 0 ==> (r - 1) * k < n,
{
    proof {
        let (a, b) = (n as int, k as int);
        assert(a == (a / b) * b + a % b && 0 <= a % b < b && 0 <= a / b <= a) by (nonlinear_arith)
            requires
                a >= 0,
                b > 0,
        ;
        let q = a / b;
        assert(a % b != 0 ==> q + 1 <= a) by (nonlinear_arith)
            requires
                a == q * b + a % b,
                0 <= a % b < b,
                q >= 0,
                b > 0,
        ;
        assert((q + 1) * b == q * b + b) by (nonlinear_arith);
        assert((q - 1) * b == q * b - b) by (nonlinear_arith);
        assert(a > 0 && a % b == 0 ==> q > 0) by (nonlinear_arith)
            requires
                a == q * b + a % b,
                q >= 0,
                b > 0,
        ;
    }
    if n % k == 0 {
        n / k
    } else {
        n / k + 1
    }
}

/// The shards of a minibatch of `n` runs on `threads` threads.
pub open spec fn shard_count(threads: int, n: int) -> int {
    let t = if threads < 1 {
        1
    } else {
        threads
    };
    let most = if n < 1 {
        1
    } else {
        n
    };
    if t < most {
        t
    } else {
        most
    }
}

/// The end of shard `s`.
pub open spec fn shard_end(s: int, per: int, n: int) -> int {
    if (s + 1) * per < n {
        (s + 1) * per
    } else {
        n
    }
}

/// The gradients and losses of the shards of a minibatch: within a shard they are
/// added one after the other, from the first on.
pub open spec fn are_shards(
    losses: Seq<F32>,
    gs: Seq<Seq<Seq<F32>>>,
    per: int,
    n: int,
    sums: Seq<Seq<Seq<F32>>>,
    shard_losses: Seq<F32>,
) -> bool {
    &&& sums.len() == shard_losses.len()
    &&& forall|s: int|
        0 <= s < sums.len() ==> #[trigger] sums[s] == folded(
            gs[s * per],
            gs,
            s * per + 1,
            shard_end(s, per, n),
        )
    &&& forall|s: int|
        0 <= s < sums.len() ==> #[trigger] shard_losses[s] == sum_of(
            losses.subrange(s * per, shard_end(s, per, n)),
        )
}

/// A step over a minibatch in shards of `per` runs: the sums of the shards are
/// added in their order.
pub open spec fn sharded_step_via<M: Math>(
    math: &M,
    a: LlamaTrainer,
    runs: Seq<Seq<usize>>,
    base: u64,
    per: int,
    loss: F32,
    b: LlamaTrainer,
    q: LlamaModel,
    losses: Seq<F32>,
    gs: Seq<Seq<Seq<F32>>>,
    sums: Seq<Seq<Seq<F32>>>,
    shard_losses: Seq<F32>,
    mid: LlamaTrainer,
) -> bool {
    let n = runs.len() as int;
    let k = sums.len() as int;
    &&& takes_gradients_at(a, q)
    &&& are_gradients(math, q, runs, a.dropout, base, losses, gs, 0, n)
    &&& are_shards(losses, gs, per, n, sums, shard_losses)
    &&& k > 0 && (k - 1) * per < n <= k * per
    &&& all_but_grads(a, mid)
    &&& mid.grads.parts() == times_all(folded(sums[0], sums, 1, k), share_of(n))
    &&& applied(math, mid, b)
    &&& loss == sum_of(shard_losses).mul_spec(share_of(n))
}

/// A step over a minibatch in shards of `per` runs.
pub open spec fn sharded_step<M: Math>(
    math: &M,
    a: LlamaTrainer,
    runs: Seq<Seq<usize>>,
    base: u64,
    per: int,
    loss: F32,
    b: LlamaTrainer,
) -> bool {
    exists|
        q: LlamaModel,
        losses: Seq<F32>,
        gs: Seq<Seq<Seq<F32>>>,
        sums: Seq<Seq<Seq<F32>>>,
        shard_losses: Seq<F32>,
        mid: LlamaTrainer,
    | #[trigger]
        sharded_step_via(
            math,
            a,
            runs,
            base,
            per,
            loss,
            b,
            q,
            losses,
            gs,
            sums,
            shard_losses,
            mid,
        )
}

/// A step over a minibatch on `threads` threads; one shard is no shard.
pub open spec fn threaded_step<M: Math>(
    math: &M,
    a: LlamaTrainer,
    runs: Seq<Seq<usize>>,
    base: u64,
    threads: int,
    loss: F32,
    b: LlamaTrainer,
) -> bool {
    let n = runs.len() as int;
    let shards = shard_count(threads, n);
    if shards <= 1 {
        serial_step(math, a, runs, base, loss, b)
    } else {
        sharded_step(math, a, runs, base, ceil_div(n, shards), loss, b)
    }
}

/// A step over a minibatch in shards that is refused takes trainer `a` to trainer
/// `b`: no parameter moves, but matrices that were put on int8 grids stay there.
pub open spec fn sharded_refused<M: Math>(
    math: &M,
    a: LlamaTrainer,
    runs: Seq<Seq<usize>>,
    base: u64,
    b: LlamaTrainer,
) -> bool {
    &&& all_but_grids(a, b)
    &&& b.grads == a.grads
    &&& some_run_fails(math, b.model, runs, a.dropout, base)
}

/// A step over a minibatch on `threads` threads is refused.
pub open spec fn threaded_refused<M: Math>(
    math: &M,
    a: LlamaTrainer,
    runs: Seq<Seq<usize>>,
    base: u64,
    threads: int,
    b: LlamaTrainer,
) -> bool {
    if shard_count(threads, runs.len() as int) <= 1 {
        serial_refused(math, a, runs, base, b)
    } else {
        sharded_refused(math, a, runs, base, b)
    }
}

/// One thread, or one run, trains as without threads, bit for bit.
pub proof fn one_shard_is_the_serial_step<M: Math>(
    math: &M,
    a: LlamaTrainer,
    runs: Seq<Seq<usize>>,
    base: u64,
    threads: int,
    loss: F32,
    b: LlamaTrainer,
)
    requires
        threads <= 1 || runs.len() <= 1,
    ensures
        threaded_step(math, a, runs, base, threads, loss, b) == serial_step(
            math,
            a,
            runs,
            base,
            loss,
            b,
        ),
{
}

/// The loss and the gradients of a shard.
pub fn shard_gradient<M: Math>(
    math: &M,
    m: &LlamaModel,
    batch: &[&[usize]],
    dropout: F32,
    base: u64,
    from: usize,
    to: usize,
) -> (r: Result<(F32, Vec<Vec<F32>>, Ghost<Seq<F32>>, Ghost<Seq<Seq<Seq<F32>>>>)>)
    requires
        trains(*m),
        from < to <= batch@.len(),
    ensures
        match r {
            Ok(t) => {
                &&& same_lens(rows_view(t.1@), model_parts(*m))
                &&& are_gradients(
                    math,
                    *m,
                    runs_of(batch@),
                    dropout,
                    base,
                    t.2@,
                    t.3@,
                    from as int,
                    to as int,
                )
                &&& t.0 == sum_of(t.2@.subrange(from as int, to as int))
                &&& rows_view(t.1@) == folded(t.3@[from as int], t.3@, from + 1, to as int)
            },
            Err(e) => e is DimMismatch && some_run_fails(
                math,
                *m,
                runs_of(batch@),
                dropout,
                base,
            ),
        },
{
    let ghost runs = runs_of(batch@);
    let seed: u64 = base.wrapping_add(from as u64).wrapping_add(1);
    proof {
        assert(runs[from as int] == batch@[from as int]@);
        assert(seed == run_seed(base, from as int)) by {
            let a = base.wrapping_add(from as u64);
            assert(a as int == (base + from) % 0x1_0000_0000_0000_0000);
            assert(seed as int == (a + 1) % 0x1_0000_0000_0000_0000);
        }
    }
    let (first, g) = match run_gradient(math, m, batch[from], dropout, seed) {
        Ok(t) => t,
        Err(e) => {
            assert(run_fails(math, *m, runs[from as int], dropout, run_seed(base, from as int)));
            return Err(e);
        },
    };
    proof {
        lemma_suits(g, *m);
    }
    let mut acc: Vec<Vec<F32>> = g.to_parts();
    let ghost head = rows_view(acc@);
    assert(run_done(
        math,
        *m,
        runs[from as int],
        dropout,
        run_seed(base, from as int),
        first,
        head,
    ));
    let (rest, Ghost(ls), Ghost(gs)) = match accumulate(
        math,
        m,
        batch,
        dropout,
        base,
        from + 1,
        to,
        &mut acc,
    ) {
        Ok(t) => t,
        Err(e) => return Err(e),
    };
    let mut all: Vec<F32> = Vec::new();
    all.push(first);
    let ghost ls1 = ls.update(from as int, first);
    let ghost gs1 = gs.update(from as int, head);
    let mut i: usize = 0;
    proof {
        assert(all@ =~= ls1.subrange(from as int, from + 1));
        assert(rest@.len() == to - from - 1);
    }
    while i < rest.len()
        invariant
            i <= rest@.len() == to - from - 1,
            from < to <= ls.len(),
            ls1 == ls.update(from as int, first),
            rest@ == ls.subrange(from + 1, to as int),
            all@ == ls1.subrange(from as int, from + 1 + i),
        decreases rest@.len() - i,
    {
        all.push(rest[i]);
        proof {
            assert(rest@[i as int] == ls1[from + 1 + i]);
            assert(all@ =~= ls1.subrange(from as int, from + 2 + i));
        }
        i = i + 1;
    }
    proof {
        lemma_folded_same(head, gs, gs1, from + 1, to as int);
        assert forall|k: int| from <= k < to implies run_done(
            math,
            *m,
            runs[k],
            dropout,
            run_seed(base, k),
            #[trigger] ls1[k],
            gs1[k],
        ) by {
            if k > from {
                assert(ls1[k] == ls[k] && gs1[k] == gs[k]);
            }
        }
    }
    let total: F32 = sum(all.as_slice());
    Ok((total, acc, Ghost(ls1), Ghost(gs1)))
}

/// The sums of the shards of a minibatch, added in their order.
struct ShardSums {
    losses: Vec<F32>,
    total: Vec<Vec<F32>>,
    each: Ghost<Seq<F32>>,
    gs: Ghost<Seq<Seq<Seq<F32>>>>,
    sums: Ghost<Seq<Seq<Seq<F32>>>>,
}

impl ShardSums {
    /// The sums of the runs up to `done`, in shards of `per`.
    spec fn holds<M: Math>(
        self,
        math: &M,
        m: LlamaModel,
        runs: Seq<Seq<usize>>,
        dropout: F32,
        base: u64,
        per: int,
        done: int,
    ) -> bool {
        let k = self.sums@.len() as int;
        &&& are_gradients(math, m, runs, dropout, base, self.each@, self.gs@, 0, done)
        &&& are_shards(self.each@, self.gs@, per, runs.len() as int, self.sums@, self.losses@)
        &&& k > 0
        &&& (k - 1) * per < done <= k * per
        &&& done == k * per || done == runs.len()
        &&& same_lens(rows_view(self.total@), model_parts(m))
        &&& rows_view(self.total@) == folded(self.sums@[0], self.sums@, 1, k)
    }
}

/// The runs before `w`, with the runs from `w` on.
spec fn spliced<A>(a: Seq<A>, b: Seq<A>, w: int) -> Seq<A> {
    Seq::new(a.len(), |i: int| if i < w { a[i] } else { b[i] })
}

/// The shards `k` on do not touch the sums of those before.
proof fn lemma_spliced_shards(
    losses: Seq<F32>,
    gs: Seq<Seq<Seq<F32>>>,
    losses1: Seq<F32>,
    gs1: Seq<Seq<Seq<F32>>>,
    per: int,
    n: int,
    sums: Seq<Seq<Seq<F32>>>,
    shard_losses: Seq<F32>,
)
    requires
        per > 0,
        are_shards(losses, gs, per, n, sums, shard_losses),
        sums.len() * per < n,
        losses.len() == n,
        losses1.len() == n,
        gs.len() == n,
        gs1.len() == n,
        forall|i: int| 0 <= i < sums.len() * per ==> #[trigger] losses1[i] == losses[i],
        forall|i: int| 0 <= i < sums.len() * per ==> #[trigger] gs1[i] == gs[i],
    ensures
        are_shards(losses1, gs1, per, n, sums, shard_losses),
{
    let k = sums.len() as int;
    assert forall|s: int| 0 <= s < k implies #[trigger] sums[s] == folded(
        gs1[s * per],
        gs1,
        s * per + 1,
        shard_end(s, per, n),
    ) && shard_losses[s] == sum_of(losses1.subrange(s * per, shard_end(s, per, n))) by {
        assert(0 <= s * per && (s + 1) * per <= k * per && s * per < (s + 1) * per)
            by (nonlinear_arith)
            requires
                0 <= s < k,
                per > 0,
        ;
        let e = shard_end(s, per, n);
        assert(gs1[s * per] == gs[s * per]);
        lemma_folded_same(gs[s * per], gs, gs1, s * per + 1, e);
        assert(losses1.subrange(s * per, e) =~= losses.subrange(s * per, e));
        assert(shard_losses[s] == sum_of(losses.subrange(s * per, e)));
    }
    assert forall|s: int| 0 <= s < k implies #[trigger] shard_losses[s] == sum_of(
        losses1.subrange(s * per, shard_end(s, per, n)),
    ) by {
        assert(sums[s] == folded(gs1[s * per], gs1, s * per + 1, shard_end(s, per, n)));
    }
}

/// The sums of all shards of `per` runs.
fn shard_sums<M: Math>(
    math: &M,
    m: &LlamaModel,
    batch: &[&[usize]],
    dropout: F32,
    base: u64,
    per: usize,
) -> (r: Result<ShardSums>)
    requires
        trains(*m),
        per > 0,
        batch@.len() > 0,
    ensures
        match r {
            Ok(t) => t.holds(
                math,
                *m,
                runs_of(batch@),
                dropout,
                base,
                per as int,
                batch@.len() as int,
            ),
            Err(e) => e is DimMismatch && some_run_fails(
                math,
                *m,
                runs_of(batch@),
                dropout,
                base,
            ),
        },
{
    let n: usize = batch.len();
    let ghost runs = runs_of(batch@);
    let mut w: usize = if n > per {
        per
    } else {
        n
    };
    let (l, g, Ghost(each), Ghost(gs)) = match shard_gradient(
        math,
        m,
        batch,
        dropout,
        base,
        0,
        w,
    ) {
        Ok(x) => x,
        Err(e) => return Err(e),
    };
    let mut losses: Vec<F32> = Vec::new();
    losses.push(l);
    let ghost sums = seq![rows_view(g@)];
    assert(0 * per == 0 && (0 + 1) * per == per && 1 * per == per) by (nonlinear_arith);
    let mut t: ShardSums = ShardSums {
        losses,
        total: g,
        each: Ghost(each),
        gs: Ghost(gs),
        sums: Ghost(sums),
    };
    while w < n
        invariant
            trains(*m),
            per > 0,
            n == batch@.len() == runs.len(),
            runs == runs_of(batch@),
            0 < w <= n,
            t.holds(math, *m, runs, dropout, base, per as int, w as int),
        decreases n - w,
    {
        let end: usize = if n - w > per {
            w + per
        } else {
            n
        };
        let ghost k = t.sums@.len() as int;
        let (l, g, Ghost(each), Ghost(gs)) = match shard_gradient(
            math,
            m,
            batch,
            dropout,
            base,
            w,
            end,
        ) {
            Ok(x) => x,
            Err(e) => return Err(e),
        };
        let ghost old_each = t.each@;
        let ghost old_gs = t.gs@;
        let ghost old_sums = t.sums@;
        let ghost old_losses = t.losses@;
        let ghost before = rows_view(t.total@);
        let ghost each1 = spliced(old_each, each, w as int);
        let ghost gs1 = spliced(old_gs, gs, w as int);
        let ghost sums1 = old_sums.push(rows_view(g@));
        proof {
            lemma_same_lens(rows_view(g@), model_parts(*m), before);
        }
        add_parts(&mut t.total, &g);
        t.losses.push(l);
        t.each = Ghost(each1);
        t.gs = Ghost(gs1);
        t.sums = Ghost(sums1);
        proof {
            assert(k * per == w);
            assert((k + 1) * per == k * per + per) by (nonlinear_arith);
            assert(end == shard_end(k, per as int, n as int));
            lemma_same_lens_chain(rows_view(t.total@), before, model_parts(*m));
            lemma_spliced_shards(
                old_each,
                old_gs,
                each1,
                gs1,
                per as int,
                n as int,
                old_sums,
                old_losses,
            );
            lemma_folded_same(gs[w as int], gs, gs1, w + 1, end as int);
            assert(each1.subrange(w as int, end as int) =~= each.subrange(
                w as int,
                end as int,
            ));
            lemma_folded_same(old_sums[0], old_sums, sums1, 1, k);
            assert(rows_view(t.total@) == folded(sums1[0], sums1, 1, k + 1));
            assert forall|i: int| 0 <= i < end implies run_done(
                math,
                *m,
                runs[i],
                dropout,
                run_seed(base, i),
                #[trigger] each1[i],
                gs1[i],
            ) by {
                if i < w {
                    assert(each1[i] == old_each[i] && gs1[i] == old_gs[i]);
                } else {
                    assert(each1[i] == each[i] && gs1[i] == gs[i]);
                }
            }
            lemma_pushed_shard(
                each1,
                gs1,
                per as int,
                n as int,
                old_sums,
                old_losses,
                rows_view(g@),
                l,
            );
        }
        w = end;
    }
    Ok(t)
}

/// One more shard.
proof fn lemma_pushed_shard(
    losses: Seq<F32>,
    gs: Seq<Seq<Seq<F32>>>,
    per: int,
    n: int,
    sums: Seq<Seq<Seq<F32>>>,
    shard_losses: Seq<F32>,
    g: Seq<Seq<F32>>,
    l: F32,
)
    requires
        are_shards(losses, gs, per, n, sums, shard_losses),
        g == folded(
            gs[sums.len() * per],
            gs,
            sums.len() * per + 1,
            shard_end(sums.len() as int, per, n),
        ),
        l == sum_of(
            losses.subrange(sums.len() * per, shard_end(sums.len() as int, per, n)),
        ),
    ensures
        are_shards(losses, gs, per, n, sums.push(g), shard_losses.push(l)),
{
    let sums1 = sums.push(g);
    let ls1 = shard_losses.push(l);
    assert forall|s: int| 0 <= s < sums1.len() implies #[trigger] sums1[s] == folded(
        gs[s * per],
        gs,
        s * per + 1,
        shard_end(s, per, n),
    ) by {
        if s < sums.len() {
            assert(sums1[s] == sums[s]);
        }
    }
    assert forall|s: int| 0 <= s < sums1.len() implies #[trigger] ls1[s] == sum_of(
        losses.subrange(s * per, shard_end(s, per, n)),
    ) by {
        if s < sums.len() {
            assert(ls1[s] == shard_losses[s]);
        }
    }
}

impl LlamaTrainer {
    /// One AdamW step over a minibatch, in as many shards as there are threads.
    pub fn step_over_windows<M: Math>(
        &mut self,
        math: &M,
        batch: &[&[usize]],
        base_seed: u64,
        threads: usize,
    ) -> (r: Result<F32>)
        requires
            old(self).wf(),
            old(self).step_t < u64::MAX,
        ensures
            final(self).wf(),
            match r {
                Ok(loss) => threaded_step(
                    math,
                    *old(self),
                    runs_of(batch@),
                    base_seed,
                    threads as int,
                    loss,
                    *final(self),
                ),
                Err(e) => e is DimMismatch && threaded_refused(
                    math,
                    *old(self),
                    runs_of(batch@),
                    base_seed,
                    threads as int,
                    *final(self),
                ),
            },
    {
        let n: usize = batch.len();
        let t: usize = if threads < 1 {
            1
        } else {
            threads
        };
        let most: usize = if n < 1 {
            1
        } else {
            n
        };
        let shards: usize = if t < most {
            t
        } else {
            most
        };
        if shards <= 1 {
            return self.train_batch_seeded(math, batch, base_seed);
        }
        let ghost a = *self;
        let ghost runs = runs_of(batch@);
        let dropout: F32 = self.dropout;
        let snap: Option<Vec<Vec<F32>>> = if self.qat {
            Some(self.quantize_weights())
        } else {
            None
        };
        let ghost q = self.model;
        proof {
            lemma_same_self(a.model);
            assert(takes_gradients_at(a, q));
        }
        let per: usize = ceil_div_exec(n, shards);
        let sums: ShardSums = match shard_sums(math, &self.model, batch, dropout, base_seed, per) {
            Ok(s) => s,
            Err(e) => return Err(e),
        };
        let inv_b: F32 = F32::one().div(F32::from_u64(n as u64));
        let mean: Vec<Vec<F32>> = scale_parts(&sums.total, inv_b);
        proof {
            lemma_same_lens_chain(rows_view(mean@), rows_view(sums.total@), model_parts(q));
        }
        self.finish_step(math, snap, &mean, Ghost(a));
        let loss: F32 = sum(sums.losses.as_slice()).mul(inv_b);
        proof {
            let mid = choose|mid: LlamaTrainer|
                {
                    &&& all_but_grads(a, mid)
                    &&& mid.grads.parts() == rows_view(mean@)
                    &&& #[trigger] applied(math, mid, *self)
                };
            assert(sharded_step_via(
                math,
                a,
                runs,
                base_seed,
                per as int,
                loss,
                *self,
                q,
                sums.each@,
                sums.gs@,
                sums.sums@,
                sums.losses@,
                mid,
            ));
        }
        Ok(loss)
    }
}

// ---------------------------------------------------------------------------
// Epochs
// ---------------------------------------------------------------------------

/// The length of a window: at most that of the context, and at least two.
pub open spec fn window_len(seq_len: int, context_len: int) -> int {
    let capped = if seq_len < context_len {
        seq_len
    } else {
        context_len
    };
    if capped < 2 {
        2
    } else {
        capped
    }
}

/// The windows of minibatch `k`: those that start at the places
/// `k * size` on of `perm`.
pub open spec fn windows_at(
    tokens: Seq<usize>,
    perm: Seq<usize>,
    len: int,
    size: int,
    k: int,
) -> Seq<Seq<usize>> {
    let from = k * size;
    Seq::new(
        (shard_end(k, size, perm.len() as int) - from) as nat,
        |i: int| tokens.subrange(perm[from + i] as int, perm[from + i] + len),
    )
}

/// The state of the generator behind the shuffling of `count` windows.
pub open spec fn state_shuffled(state: u64, count: int) -> u64 {
    state_after(state, (count - 1) as nat)
}

/// The seed of minibatch `k`: the next of the generator where there is dropout.
pub open spec fn seed_at(dropout: F32, shuffled_state: u64, k: int) -> u64 {
    if (F32 { bits: 0 }).lt_spec(dropout) {
        scramble(state_after(shuffled_state, (k + 1) as nat))
    } else {
        0
    }
}

/// The state of the generator behind `k` minibatches.
pub open spec fn state_at(dropout: F32, shuffled_state: u64, k: int) -> u64 {
    if (F32 { bits: 0 }).lt_spec(dropout) {
        state_after(shuffled_state, k as nat)
    } else {
        shuffled_state
    }
}

/// The first `n` minibatches of an epoch take the trainer through `ts`, with the
/// losses `ls`.
pub open spec fn batches_done<M: Math>(
    math: &M,
    tokens: Seq<usize>,
    perm: Seq<usize>,
    len: int,
    size: int,
    state: u64,
    threads: int,
    ts: Seq<LlamaTrainer>,
    ls: Seq<F32>,
    n: int,
) -> bool {
    &&& ts.len() == n + 1
    &&& ls.len() == n
    &&& forall|k: int|
        0 <= k < n ==> threaded_step(
            math,
            ts[k],
            windows_at(tokens, perm, len, size, k),
            seed_at(ts[0].dropout, state, k),
            threads,
            #[trigger] ls[k],
            ts[k + 1],
        )
}

/// An epoch: the windows of a token stream are shuffled and drawn without
/// replacement.
pub open spec fn epoch_done<M: Math>(
    math: &M,
    a: LlamaTrainer,
    tokens: Seq<usize>,
    len: int,
    size: int,
    state: u64,
    threads: int,
    loss: F32,
    b: LlamaTrainer,
) -> bool {
    let count = tokens.len() - len + 1;
    let n = ceil_div(count, size);
    exists|ts: Seq<LlamaTrainer>, ls: Seq<F32>|
        {
            &&& #[trigger] batches_done(
                math,
                tokens,
                shuffled(state, count as nat),
                len,
                size,
                state_shuffled(state, count),
                threads,
                ts,
                ls,
                n,
            )
            &&& ts[0] == a
            &&& ts[n] == b
            &&& loss == sum_of(ls).div_spec(of_int(n))
        }
}

/// An epoch that is refused at some minibatch; those before it are done.
pub open spec fn epoch_refused<M: Math>(
    math: &M,
    a: LlamaTrainer,
    tokens: Seq<usize>,
    len: int,
    size: int,
    state: u64,
    threads: int,
    b: LlamaTrainer,
    after: u64,
) -> bool {
    let count = tokens.len() - len + 1;
    let perm = shuffled(state, count as nat);
    exists|ts: Seq<LlamaTrainer>, ls: Seq<F32>, k: int|
        {
            &&& 0 <= k < ceil_div(count, size)
            &&& #[trigger] batches_done(
                math,
                tokens,
                perm,
                len,
                size,
                state_shuffled(state, count),
                threads,
                ts,
                ls,
                k,
            )
            &&& ts[0] == a
            &&& threaded_refused(
                math,
                ts[k],
                windows_at(tokens, perm, len, size, k),
                seed_at(a.dropout, state_shuffled(state, count), k),
                threads,
                b,
            )
            &&& after == state_at(a.dropout, state_shuffled(state, count), k + 1)
        }
}

/// The windows that start at the places `from` up to `to` of `perm`.
fn take_windows<'a>(
    tokens: &'a [usize],
    perm: &Vec<usize>,
    len: usize,
    from: usize,
    to: usize,
) -> (w: Vec<&'a [usize]>)
    requires
        from <= to <= perm@.len(),
        forall|i: int| 0 <= i < perm@.len() ==> #[trigger] perm@[i] + len <= tokens@.len(),
    ensures
        w@.len() == to - from,
        forall|i: int|
            0 <= i < w@.len() ==> (#[trigger] w@[i])@ == tokens@.subrange(
                perm@[from + i] as int,
                perm@[from + i] + len,
            ),
{
    let total: usize = tokens.len();
    let mut w: Vec<&'a [usize]> = Vec::new();
    let mut i: usize = from;
    while i < to
        invariant
            total == tokens@.len(),
            from <= i <= to <= perm@.len(),
            forall|i: int| 0 <= i < perm@.len() ==> #[trigger] perm@[i] + len <= tokens@.len(),
            w@.len() == i - from,
            forall|k: int|
                0 <= k < w@.len() ==> (#[trigger] w@[k])@ == tokens@.subrange(
                    perm@[from + k] as int,
                    perm@[from + k] + len,
                ),
        decreases to - i,
    {
        let s: usize = perm[i];
        assert(perm@[i as int] + len <= tokens@.len());
        w.push(slice_subrange(tokens, s, s + len));
        i = i + 1;
    }
    w
}

/// A step leaves the dropout as it is, and counts.
pub(crate) proof fn lemma_step_keeps<M: Math>(
    math: &M,
    a: LlamaTrainer,
    runs: Seq<Seq<usize>>,
    base: u64,
    threads: int,
    loss: F32,
    b: LlamaTrainer,
)
    requires
        threaded_step(math, a, runs, base, threads, loss, b),
    ensures
        a.same_settings(b),
        b.step_t == a.step_t + 1,
{
    let shards = shard_count(threads, runs.len() as int);
    let mid = if shards <= 1 {
        let (q, losses, gs, mid) = choose|
            q: LlamaModel,
            losses: Seq<F32>,
            gs: Seq<Seq<Seq<F32>>>,
            mid: LlamaTrainer,
        | #[trigger]
            serial_step_via(math, a, runs, base, loss, b, q, losses, gs, mid);
        mid
    } else {
        let per = ceil_div(runs.len() as int, shards);
        let (q, losses, gs, sums, sl, mid) = choose|
            q: LlamaModel,
            losses: Seq<F32>,
            gs: Seq<Seq<Seq<F32>>>,
            sums: Seq<Seq<Seq<F32>>>,
            sl: Seq<F32>,
            mid: LlamaTrainer,
        | #[trigger]
            sharded_step_via(math, a, runs, base, per, loss, b, q, losses, gs, sums, sl, mid);
        mid
    };
    assert(all_but_grads(a, mid) && applied(math, mid, b));
}

impl LlamaTrainer {
    /// An epoch over the windows of a token stream: they are shuffled, and each
    /// minibatch makes one step, in as many shards as there are threads. The mean
    /// loss.
    pub fn finetune_epoch_threaded<M: Math>(
        &mut self,
        math: &M,
        tokens: &[usize],
        seq_len: usize,
        batch_size: usize,
        rng: &mut Rng,
        threads: usize,
    ) -> (r: Result<F32>)
        requires
            old(self).wf(),
            old(self).step_t + tokens@.len() <= u64::MAX,
        ensures
            final(self).wf(),
            ({
                let len = window_len(seq_len as int, old(self).model.cfg.context_len as int);
                let size = if batch_size < 1 {
                    1
                } else {
                    batch_size as int
                };
                let count = tokens@.len() - len + 1;
                match r {
                    Ok(loss) => {
                        &&& tokens@.len() >= len
                        &&& epoch_done(
                            math,
                            *old(self),
                            tokens@,
                            len,
                            size,
                            old(rng)@,
                            threads as int,
                            loss,
                            *final(self),
                        )
                        &&& final(rng)@ == state_at(
                            old(self).dropout,
                            state_shuffled(old(rng)@, count),
                            ceil_div(count, size),
                        )
                    },
                    Err(e) => e is DimMismatch && if tokens@.len() < len {
                        *final(self) == *old(self) && *final(rng) == *old(rng)
                    } else {
                        epoch_refused(
                            math,
                            *old(self),
                            tokens@,
                            len,
                            size,
                            old(rng)@,
                            threads as int,
                            *final(self),
                            final(rng)@,
                        )
                    },
                }
            }),
    {
        let context: usize = self.model.cfg.context_len;
        let capped: usize = if seq_len < context {
            seq_len
        } else {
            context
        };
        let len: usize = if capped < 2 {
            2
        } else {
            capped
        };
        if tokens.len() < len {
            return Err(
                mismatch("need at least seq_len = ", len, " tokens, got ", tokens.len()),
            );
        }
        let size: usize = if batch_size < 1 {
            1
        } else {
            batch_size
        };
        let count: usize = tokens.len() - len + 1;
        let steps: usize = ceil_div_exec(count, size);
        let ghost a = *self;
        let ghost state0 = rng@;
        let perm: Vec<usize> = rng.shuffled_indices(count);
        let ghost state = rng@;
        let dropout: F32 = self.dropout;
        let drops: bool = F32::zero().lt(dropout);
        let mut losses: Vec<F32> = Vec::new();
        let ghost mut ts: Seq<LlamaTrainer> = seq![a];
        let mut from: usize = 0;
        let mut k: usize = 0;
        proof {
            assert(0 * size == 0) by (nonlinear_arith);
            assert(perm@ == shuffled(state0, count as nat));
            assert forall|i: int| 0 <= i < perm@.len() implies #[trigger] perm@[i] + len
                <= tokens@.len() by {}
        }
        while k < steps
            invariant
                self.wf(),
                a.wf(),
                a == *old(self),
                state0 == old(rng)@,
                len == window_len(seq_len as int, a.model.cfg.context_len as int),
                size == if batch_size < 1 {
                    1
                } else {
                    batch_size as int
                },
                k <= steps <= count,
                size > 0,
                count == tokens@.len() - len + 1,
                len >= 2,
                steps == ceil_div(count as int, size as int),
                (steps - 1) * size < count,
                steps * size >= count,
                perm@.len() == count,
                perm@ == shuffled(state0, count as nat),
                forall|i: int|
                    0 <= i < perm@.len() ==> #[trigger] perm@[i] + len <= tokens@.len(),
                from == if k < steps {
                    k * size
                } else {
                    count as int
                },
                state == state_shuffled(state0, count as int),
                rng@ == state_at(a.dropout, state, k as int),
                dropout == a.dropout,
                dropout == self.dropout,
                drops == (F32 { bits: 0 }).lt_spec(dropout),
                self.step_t == a.step_t + k,
                a.step_t + tokens@.len() <= u64::MAX,
                batches_done(
                    math,
                    tokens@,
                    perm@,
                    len as int,
                    size as int,
                    state,
                    threads as int,
                    ts,
                    losses@,
                    k as int,
                ),
                ts[0] == a,
                ts[k as int] == *self,
            decreases steps - k,
        {
            proof {
                assert(k * size <= (steps - 1) * size) by (nonlinear_arith)
                    requires
                        k <= steps - 1,
                        size > 0,
                ;
                assert((k + 1) * size == k * size + size) by (nonlinear_arith);
                if k + 1 < steps {
                    assert((k + 1) * size <= (steps - 1) * size) by (nonlinear_arith)
                        requires
                            k + 1 <= steps - 1,
                            size > 0,
                    ;
                }
            }
            let to: usize = if count - from > size {
                from + size
            } else {
                count
            };
            assert(to == shard_end(k as int, size as int, count as int));
            let windows: Vec<&[usize]> = take_windows(tokens, &perm, len, from, to);
            let seed: u64 = if drops {
                rng.next_u64()
            } else {
                0
            };
            proof {
                assert(runs_of(windows@) =~= windows_at(
                    tokens@,
                    perm@,
                    len as int,
                    size as int,
                    k as int,
                ));
                assert((k + 1 - 1) as nat == k as nat);
                assert(seed == seed_at(a.dropout, state, k as int));
                assert(rng@ == state_at(a.dropout, state, k + 1));
            }
            let ghost before = *self;
            let loss: F32 = match self.step_over_windows(
                math,
                windows.as_slice(),
                seed,
                threads,
            ) {
                Ok(l) => l,
                Err(e) => {
                    assert(epoch_refused(
                        math,
                        a,
                        tokens@,
                        len as int,
                        size as int,
                        state0,
                        threads as int,
                        *self,
                        rng@,
                    ));
                    return Err(e);
                },
            };
            let ghost ls0 = losses@;
            let ghost ts0 = ts;
            losses.push(loss);
            proof {
                ts = ts.push(*self);
                lemma_step_keeps(
                    math,
                    before,
                    runs_of(windows@),
                    seed,
                    threads as int,
                    loss,
                    *self,
                );
                assert forall|j: int| 0 <= j < k + 1 implies threaded_step(
                    math,
                    ts[j],
                    windows_at(tokens@, perm@, len as int, size as int, j),
                    seed_at(ts[0].dropout, state, j),
                    threads as int,
                    #[trigger] losses@[j],
                    ts[j + 1],
                ) by {
                    if j < k {
                        assert(losses@[j] == ls0[j] && ts[j] == ts0[j] && ts[j + 1] == ts0[j + 1]);
                    }
                }
            }
            from = to;
            k = k + 1;
        }
        let loss: F32 = sum(losses.as_slice()).div(F32::from_u64(steps as u64));
        proof {
            assert(epoch_done(
                math,
                a,
                tokens@,
                len as int,
                size as int,
                state0,
                threads as int,
                loss,
                *self,
            ));
        }
        Ok(loss)
    }

    /// An epoch over the windows of a token stream, without threads.
    pub fn finetune_epoch<M: Math>(
        &mut self,
        math: &M,
        tokens: &[usize],
        seq_len: usize,
        batch_size: usize,
        rng: &mut Rng,
    ) -> (r: Result<F32>)
        requires
            old(self).wf(),
            old(self).step_t + tokens@.len() <= u64::MAX,
        ensures
            final(self).wf(),
            ({
                let len = window_len(seq_len as int, old(self).model.cfg.context_len as int);
                let size = if batch_size < 1 {
                    1
                } else {
                    batch_size as int
                };
                let count = tokens@.len() - len + 1;
                match r {
                    Ok(loss) => {
                        &&& tokens@.len() >= len
                        &&& epoch_done(
                            math,
                            *old(self),
                            tokens@,
                            len,
                            size,
                            old(rng)@,
                            1,
                            loss,
                            *final(self),
                        )
                        &&& final(rng)@ == state_at(
                            old(self).dropout,
                            state_shuffled(old(rng)@, count),
                            ceil_div(count, size),
                        )
                    },
                    Err(e) => e is DimMismatch && if tokens@.len() < len {
                        *final(self) == *old(self) && *final(rng) == *old(rng)
                    } else {
                        epoch_refused(
                            math,
                            *old(self),
                            tokens@,
                            len,
                            size,
                            old(rng)@,
                            1,
                            *final(self),
                            final(rng)@,
                        )
                    },
                }
            }),
    {
        self.finetune_epoch_threaded(math, tokens, seq_len, batch_size, rng, 1)
    }
}

} // verus!
