//! What a minibatch trains with: the means of the losses and gradients of its runs, up to
//! rounding.
use crate::decoder::LlamaModel;
use crate::float::F32;
use crate::float_errors::{lemma_add_miss, lemma_value, size};
use crate::llm_train::{serial_step_via, share_of, zero_parts, LlamaTrainer};
use crate::loss_laws::{is_part_of, shares_divide_by_the_count};
use crate::math::Math;
use crate::ops::sum_of;
use crate::softmax_shares::exact_sum;
use crate::sum_errors::{exact_sizes, lemma_add_parts, lemma_mul_parts, lemma_sum_miss};
use crate::train_steps::folded;
use vstd::prelude::*;

verus! {

/// The numbers at place `j` of part `i` of the first `n` lists.
pub open spec fn numbers_at(gs: Seq<Seq<Seq<F32>>>, i: int, j: int, n: int) -> Seq<F32> {
    Seq::new(n as nat, |r: int| gs[r][i][j])
}

/// `v` times the count is the sum of the numbers, up to rounding.
pub open spec fn is_share_of_sum(v: F32, s: Seq<F32>) -> bool {
    let n = s.len() as int;
    v.finite_spec() ==> size(v.units() * n - exact_sum(s)) * 0x10_0000 <= (n + 8) * exact_sizes(s)
        + 0x10_0000 * n
}

/// A sum over a count.
proof fn lemma_share_of_sum(v: int, u: int, e: int, z: int, n: int)
    requires
        0 < n <= 0x10_0000,
        size(e) <= z,
        is_part_of(v, n, u),
        size(u - e) * 0x80_0000 <= n * z,
    ensures
        size(v * n - e) * 0x10_0000 <= (n + 8) * z + 0x10_0000 * n,
{
    let nz = n * z;
    assert((n + 8) * z == nz + 8 * z && 0 <= nz <= 0x10_0000 * z) by (nonlinear_arith)
        requires
            nz == n * z,
            0 <= n <= 0x10_0000,
            z >= 0,
    ;
}

/// The exact sum is at most the sum of the sizes.
proof fn lemma_sum_size(s: Seq<F32>)
    ensures
        size(exact_sum(s)) <= exact_sizes(s),
    decreases s.len(),
{
    if s.len() > 0 {
        lemma_sum_size(s.drop_last());
    }
}

/// One more number in a sum.
proof fn lemma_one_more(w: int, v: int, e: int, z: int, g: int, n: int)
    requires
        0 < n <= 0x10_0000,
        size(e) <= z,
        size(v - e) * 0x80_0000 <= (n - 1) * z,
        size(w - (v + g)) * 0x100_0000 <= size(v + g),
    ensures
        size(w - (e + g)) * 0x80_0000 <= n * (z + size(g)),
{
    let (k, sg) = ((n - 1) * z, size(g));
    let m = n * (z + sg);
    assert(m >= k + z + sg && 0 <= k <= 0x10_0000 * z) by (nonlinear_arith)
        requires
            m == n * (z + sg),
            k == (n - 1) * z,
            1 <= n <= 0x10_0000,
            z >= 0,
            sg >= 0,
    ;
}

/// Lists that are added one after the other from zero.
proof fn lemma_added(init: Seq<Seq<F32>>, gs: Seq<Seq<Seq<F32>>>, n: int, i: int, j: int)
    requires
        0 <= n <= 0x10_0000,
        0 <= i < init.len(),
        0 <= j < init[i].len(),
        init[i][j] == (F32 { bits: 0 }),
    ensures
        folded(init, gs, 0, n).len() == init.len(),
        folded(init, gs, 0, n)[i].len() == init[i].len(),
        folded(init, gs, 0, n)[i][j].finite_spec() ==> size(
            folded(init, gs, 0, n)[i][j].units() - exact_sum(numbers_at(gs, i, j, n)),
        ) * 0x80_0000 <= n * exact_sizes(numbers_at(gs, i, j, n)),
    decreases n,
{
    let s = numbers_at(gs, i, j, n);
    if n > 0 {
        lemma_added(init, gs, n - 1, i, j);
        let v = folded(init, gs, 0, n - 1)[i][j];
        let g = gs[n - 1][i][j];
        let w = folded(init, gs, 0, n)[i][j];
        assert(w == v.add_spec(g));
        assert(s.drop_last() =~= numbers_at(gs, i, j, n - 1));
        if w.finite_spec() {
            lemma_add_parts(v, g);
            lemma_add_miss(v, g);
            lemma_sum_size(s.drop_last());
            lemma_one_more(
                w.units(),
                v.units(),
                exact_sum(s.drop_last()),
                exact_sizes(s.drop_last()),
                g.units(),
                n,
            );
        }
    } else {
        lemma_value(F32 { bits: 0 });
    }
}

/// A minibatch that is stepped over in one go: its loss is the mean of the losses of its
/// runs, and each gradient number the mean of theirs.
pub proof fn minibatches_train_with_means<M: Math>(
    math: &M,
    a: LlamaTrainer,
    runs: Seq<Seq<usize>>,
    base: u64,
    loss: F32,
    b: LlamaTrainer,
    q: LlamaModel,
    losses: Seq<F32>,
    gs: Seq<Seq<Seq<F32>>>,
    mid: LlamaTrainer,
    i: int,
    j: int,
)
    requires
        serial_step_via(math, a, runs, base, loss, b, q, losses, gs, mid),
        runs.len() <= 0x10_0000,
        0 <= i < zero_parts(a.model).len(),
        0 <= j < zero_parts(a.model)[i].len(),
    ensures
        is_share_of_sum(loss, losses),
        is_share_of_sum(mid.grads.parts()[i][j], numbers_at(gs, i, j, runs.len() as int)),
{
    let n = runs.len() as int;
    let init = zero_parts(a.model);
    let s = numbers_at(gs, i, j, n);
    lemma_added(init, gs, n, i, j);
    let u = folded(init, gs, 0, n)[i][j];
    let v = mid.grads.parts()[i][j];
    assert(v == u.mul_spec(share_of(n)));
    if v.finite_spec() {
        lemma_mul_parts(u, share_of(n));
        shares_divide_by_the_count(u, n);
        lemma_sum_size(s);
        lemma_share_of_sum(v.units(), u.units(), exact_sum(s), exact_sizes(s), n);
    }
    if loss.finite_spec() {
        lemma_mul_parts(sum_of(losses), share_of(n));
        lemma_sum_miss(losses);
        shares_divide_by_the_count(sum_of(losses), n);
        lemma_sum_size(losses);
        lemma_share_of_sum(
            loss.units(),
            sum_of(losses).units(),
            exact_sum(losses),
            exact_sizes(losses),
            n,
        );
    }
}

} // verus!
