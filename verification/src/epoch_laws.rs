//! What an epoch trains on: every stretch of the tokens, each once.
use crate::deviations::{is_mean, lemma_mean};
use crate::float::{of_int, F32};
use crate::llm_train::LlamaTrainer;
use crate::math::Math;
use crate::ops::sum_of;
use crate::rng::{is_permutation, shuffled, shuffles_are_permutations};
use crate::train_epochs::{
    batches_done, ceil_div, epoch_done, seed_at, shard_end, state_shuffled, threaded_step,
    window_len, windows_at,
};
use vstd::prelude::*;

verus! {

/// Minibatches of `size` stretches of `len` tokens: in the order `starts`, which holds every
/// place that has `len` tokens behind it once; only the last minibatch may be smaller.
pub open spec fn is_round(
    tokens: Seq<usize>,
    len: int,
    size: int,
    starts: Seq<usize>,
    batches: Seq<Seq<Seq<usize>>>,
) -> bool {
    let n = batches.len() as int;
    &&& is_permutation(starts, tokens.len() - len + 1)
    &&& n > 0
    &&& forall|k: int| 0 <= k < n - 1 ==> (#[trigger] batches[k]).len() == size
    &&& 0 < batches[n - 1].len() <= size
    &&& (n - 1) * size + batches[n - 1].len() == tokens.len() - len + 1
    &&& forall|k: int, i: int|
        0 <= k < n && 0 <= i < batches[k].len() ==> (#[trigger] batches[k][i]).len() == len
            && forall|t: int|
            0 <= t < len ==> #[trigger] batches[k][i][t] == tokens[starts[k * size + i] + t]
}

/// The trainer takes one step for each minibatch, from `a` to `b`.
pub open spec fn are_steps<M: Math>(
    math: &M,
    a: LlamaTrainer,
    batches: Seq<Seq<Seq<usize>>>,
    seeds: Seq<u64>,
    threads: int,
    ts: Seq<LlamaTrainer>,
    losses: Seq<F32>,
    b: LlamaTrainer,
) -> bool {
    let n = batches.len() as int;
    &&& ts.len() == n + 1
    &&& losses.len() == n
    &&& ts[0] == a
    &&& ts[n] == b
    &&& forall|k: int|
        0 <= k < n ==> threaded_step(
            math,
            ts[k],
            batches[k],
            seeds[k],
            threads,
            #[trigger] losses[k],
            ts[k + 1],
        )
}

/// A quotient that is rounded up.
proof fn lemma_rounded_up(count: int, size: int)
    requires
        count > 0,
        size > 0,
    ensures
        ceil_div(count, size) > 0,
        (ceil_div(count, size) - 1) * size < count <= ceil_div(count, size) * size,
{
    let q = count / size;
    assert(count == q * size + count % size && 0 <= count % size < size && q >= 0) by (nonlinear_arith)
        requires
            q == count / size,
            count > 0,
            size > 0,
    ;
    assert((q + 1) * size == q * size + size && (q - 1) * size == q * size - size)
        by (nonlinear_arith);
    if q == 0 {
        assert(q * size == 0) by (nonlinear_arith)
            requires
                q == 0,
        ;
    }
}

/// An epoch steps through every stretch of the tokens once, minibatch by minibatch, and
/// its loss is the mean of those of the minibatches.
pub proof fn epochs_train_on_every_stretch_once<M: Math>(
    math: &M,
    a: LlamaTrainer,
    tokens: Seq<usize>,
    len: int,
    size: int,
    state: u64,
    threads: int,
    loss: F32,
    b: LlamaTrainer,
)
    requires
        epoch_done(math, a, tokens, len, size, state, threads, loss, b),
        0 < len <= tokens.len() <= 0x10_0000,
        size > 0,
    ensures
        exists|
            starts: Seq<usize>,
            batches: Seq<Seq<Seq<usize>>>,
            seeds: Seq<u64>,
            ts: Seq<LlamaTrainer>,
            losses: Seq<F32>,
        |
            {
                &&& #[trigger] is_round(tokens, len, size, starts, batches)
                &&& #[trigger] are_steps(math, a, batches, seeds, threads, ts, losses, b)
                &&& loss.finite_spec() ==> is_mean(losses, loss)
            },
{
    let count = tokens.len() - len + 1;
    let n = ceil_div(count, size);
    let starts = shuffled(state, count as nat);
    shuffles_are_permutations(state, count as nat);
    let s = state_shuffled(state, count);
    let (ts, losses) = choose|ts: Seq<LlamaTrainer>, ls: Seq<F32>|
        {
            &&& #[trigger] batches_done(math, tokens, starts, len, size, s, threads, ts, ls, n)
            &&& ts[0] == a
            &&& ts[n] == b
            &&& loss == sum_of(ls).div_spec(of_int(n))
        };
    lemma_rounded_up(count, size);
    let batches = Seq::new(n as nat, |k: int| windows_at(tokens, starts, len, size, k));
    let seeds = Seq::new(n as nat, |k: int| seed_at(a.dropout, s, k));
    assert forall|k: int| 0 <= k < n - 1 implies (#[trigger] batches[k]).len() == size by {
        assert((k + 1) * size <= (n - 1) * size && (k + 1) * size == k * size + size)
            by (nonlinear_arith)
            requires
                k + 1 <= n - 1,
                size > 0,
        ;
    }
    assert((n - 1 + 1) * size == n * size && (n - 1) * size + size == n * size) by (nonlinear_arith);
    assert forall|k: int, i: int| 0 <= k < n && 0 <= i < batches[k].len() implies (
    #[trigger] batches[k][i]).len() == len && forall|t: int|
        0 <= t < len ==> #[trigger] batches[k][i][t] == tokens[starts[k * size + i] + t] by {
        assert(0 <= k * size <= (n - 1) * size) by (nonlinear_arith)
            requires
                0 <= k <= n - 1,
                size > 0,
        ;
        assert((k + 1) * size == k * size + size) by (nonlinear_arith);
        assert(k * size + i < shard_end(k, size, count));
        assert(starts[k * size + i] < count);
    }
    assert forall|k: int| 0 <= k < n implies threaded_step(
        math,
        ts[k],
        batches[k],
        seeds[k],
        threads,
        #[trigger] losses[k],
        ts[k + 1],
    ) by {}
    assert(is_round(tokens, len, size, starts, batches));
    assert(are_steps(math, a, batches, seeds, threads, ts, losses, b));
    if loss.finite_spec() {
        assert(n <= count) by (nonlinear_arith)
            requires
                (n - 1) * size < count,
                size >= 1,
                n > 0,
        ;
        lemma_mean(losses);
    }
}

/// Stretches fit into the context and are no longer than was asked for, but they hold two
/// tokens at least.
pub proof fn stretches_fit_the_context(seq_len: int, context_len: int)
    requires
        2 <= seq_len,
        2 <= context_len,
    ensures
        2 <= window_len(seq_len, context_len) <= context_len,
        window_len(seq_len, context_len) <= seq_len,
        window_len(seq_len, context_len) == context_len || window_len(seq_len, context_len)
            == seq_len,
{
}

} // verus!
