//! Losses and their gradients.
use crate::error::Result;
use crate::float::{of_int, F32};
use crate::index::{cell, lemma_cell, lemma_row};
use crate::loss_laws::{
    gradients_are_twice_the_distances, is_distance_gradient, is_mean_square, squared_errors_are_means,
};
use crate::math::{is_ln, Math};
use crate::ops::{is_softmax, mismatch, not_matrix, row_of, softmax_rows, sum, sum_of};
use crate::tensor::Tensor;
use vstd::prelude::*;

verus! {

/// One over the number of rows.
pub open spec fn share(batch: int) -> F32 {
    F32 { bits: 0x3f80_0000 }.div_spec(of_int(batch))
}

/// The gradient of one logit: the probability, less one for the target.
pub open spec fn logit_gradient(p: F32, is_target: bool, inv: F32) -> F32 {
    p.sub_spec(
        if is_target {
            F32 { bits: 0x3f80_0000 }
        } else {
            F32 { bits: 0 }
        },
    ).mul_spec(inv)
}

/// The negated numbers.
pub open spec fn negated_all(s: Seq<F32>) -> Seq<F32> {
    s.map_values(|x: F32| x.negated())
}

/// `loss` and `grad` are those of logits, with `probs` their softmax and `logs`
/// the logarithms of what the targets have of it.
pub open spec fn cross_entropy_via<M: Math>(
    m: &M,
    logits: Tensor,
    targets: Seq<usize>,
    probs: Seq<F32>,
    logs: Seq<F32>,
    loss: F32,
    grad: Seq<F32>,
) -> bool {
    let batch = logits.shape@[0] as int;
    let vocab = logits.shape@[1] as int;
    &&& probs.len() == batch * vocab
    &&& logs.len() == batch
    &&& grad.len() == batch * vocab
    &&& forall|i: int|
        0 <= i < batch ==> is_softmax(
            m,
            #[trigger] row_of(logits.data@, i, vocab),
            row_of(probs, i, vocab),
        )
    &&& forall|i: int|
        0 <= i < batch ==> is_ln(
            m,
            probs[cell(i, targets[i] as int, vocab)].max_spec(F32 { bits: 0x2b8c_bccc }),
            #[trigger] logs[i],
        )
    &&& loss == sum_of(negated_all(logs)).mul_spec(share(batch))
    &&& forall|i: int, j: int|
        0 <= i < batch && 0 <= j < vocab ==> grad[#[trigger] cell(i, j, vocab)] == logit_gradient(
            probs[cell(i, j, vocab)],
            j == targets[i],
            share(batch),
        )
}

/// `loss` and `grad` are those of logits.
pub open spec fn is_cross_entropy<M: Math>(
    m: &M,
    logits: Tensor,
    targets: Seq<usize>,
    loss: F32,
    grad: Seq<F32>,
) -> bool {
    exists|probs: Seq<F32>, logs: Seq<F32>| #[trigger]
        cross_entropy_via(m, logits, targets, probs, logs, loss, grad)
}

/// Whether every target is a class.
pub open spec fn targets_known(targets: Seq<usize>, vocab: int) -> bool {
    forall|i: int| 0 <= i < targets.len() ==> #[trigger] targets[i] < vocab
}

/// The mean cross-entropy of the softmax of logits, and its gradient.
pub fn softmax_cross_entropy<M: Math>(m: &M, logits: &Tensor, targets: &[usize]) -> (r: Result<
    (F32, Tensor),
>)
    requires
        logits.wf(),
    ensures
        match r {
            Ok(t) => {
                &&& logits.is_matrix()
                &&& targets@.len() == logits.shape@[0]
                &&& targets_known(targets@, logits.shape@[1] as int)
                &&& t.1.wf() && t.1.shape@ == logits.shape@
                &&& is_cross_entropy(m, *logits, targets@, t.0, t.1.data@)
            },
            Err(e) => {
                ||| not_matrix(*logits, e)
                ||| logits.is_matrix() && e is DimMismatch && (targets@.len() != logits.shape@[0]
                    || !targets_known(targets@, logits.shape@[1] as int))
            },
        },
{
    let (batch, vocab) = match logits.matrix_dims() {
        Ok(d) => d,
        Err(e) => return Err(e),
    };
    if targets.len() != batch {
        return Err(mismatch("", targets.len(), " targets for batch of ", batch));
    }
    let probs: Tensor = match softmax_rows(m, logits) {
        Ok(t) => t,
        Err(e) => return Err(e),
    };
    let inv: F32 = F32::one().div(F32::from_u64(batch as u64));
    let total: usize = logits.data.len();
    let ghost ps = probs.data@;
    let mut logs: Vec<F32> = Vec::new();
    let mut losses: Vec<F32> = Vec::new();
    let mut grad: Vec<F32> = Vec::with_capacity(total);
    let mut i: usize = 0;
    assert(0 * vocab == 0) by (nonlinear_arith);
    while i < batch
        invariant
            logits.is_matrix(),
            batch == logits.shape@[0],
            vocab == logits.shape@[1],
            i <= batch == targets@.len(),
            total == ps.len() == batch * vocab,
            ps == probs.data@,
            inv == share(batch as int),
            logs@.len() == i,
            losses@ == negated_all(logs@),
            grad@.len() == i * vocab,
            forall|k: int| 0 <= k < i ==> #[trigger] targets@[k] < vocab,
            forall|k: int|
                0 <= k < i ==> is_ln(
                    m,
                    ps[cell(k, targets@[k] as int, vocab as int)].max_spec(
                        F32 { bits: 0x2b8c_bccc },
                    ),
                    #[trigger] logs@[k],
                ),
            forall|k: int, j: int|
                0 <= k < i && 0 <= j < vocab ==> grad@[#[trigger] cell(k, j, vocab as int)]
                    == logit_gradient(ps[cell(k, j, vocab as int)], j == targets@[k], inv),
        decreases batch - i,
    {
        proof {
            lemma_row(i as int, batch as int, vocab as int);
        }
        let base: usize = i * vocab;
        let t: usize = targets[i];
        if t >= vocab {
            assert(targets@[i as int] >= vocab);
            return Err(mismatch("target index ", t, " ≥ num_classes ", vocab));
        }
        let p: F32 = probs.data[base + t].max(F32 { bits: 0x2b8c_bccc });
        let l: F32 = m.ln(p);
        proof {
            assert(cell(i as int, t as int, vocab as int) == base + t);
            assert(is_ln(m, p, l));
        }
        logs.push(l);
        losses.push(l.neg());
        assert(losses@ =~= negated_all(logs@));
        let mut j: usize = 0;
        while j < vocab
            invariant
                i < batch == targets@.len(),
                j <= vocab,
                base == i * vocab,
                base + vocab <= total == ps.len(),
                ps == probs.data@,
                t == targets@[i as int],
                grad@.len() == base + j,
                forall|k: int, c: int|
                    0 <= k < i && 0 <= c < vocab ==> grad@[#[trigger] cell(k, c, vocab as int)]
                        == logit_gradient(ps[cell(k, c, vocab as int)], c == targets@[k], inv),
                forall|c: int|
                    0 <= c < j ==> grad@[#[trigger] cell(i as int, c, vocab as int)]
                        == logit_gradient(ps[cell(i as int, c, vocab as int)], c == t, inv),
            decreases vocab - j,
        {
            let one: F32 = if j == t {
                F32::one()
            } else {
                F32::zero()
            };
            let ghost before = grad@;
            grad.push(probs.data[base + j].sub(one).mul(inv));
            proof {
                assert forall|k: int, c: int| 0 <= k < i && 0 <= c < vocab implies grad@[
                    #[trigger] cell(k, c, vocab as int)] == before[cell(k, c, vocab as int)] by {
                    lemma_cell(k, c, i as int, vocab as int);
                }
                assert(cell(i as int, j as int, vocab as int) == base + j);
            }
            j = j + 1;
        }
        i = i + 1;
    }
    let loss: F32 = sum(losses.as_slice()).mul(inv);
    let ghost g = grad@;
    match Tensor::matrix(batch, vocab, grad) {
        Ok(t) => {
            proof {
                assert(t.shape@ =~= logits.shape@);
                assert(t.data@ == g);
                assert(cross_entropy_via(m, *logits, targets@, ps, logs@, loss, t.data@));
                assert(is_cross_entropy(m, *logits, targets@, loss, t.data@));
            }
            Ok((loss, t))
        },
        Err(e) => Err(e),
    }
}

/// The distance of each prediction to its target.
pub open spec fn differences(preds: Seq<F32>, targets: Seq<F32>) -> Seq<F32> {
    Seq::new(targets.len(), |i: int| preds[i].sub_spec(targets[i]))
}

/// The squares of numbers.
pub open spec fn squares(s: Seq<F32>) -> Seq<F32> {
    s.map_values(|x: F32| x.mul_spec(x))
}

/// The mean squared error of one prediction for each target, and its gradient.
pub fn mse(preds: &Tensor, targets: &[F32]) -> (r: Result<(F32, Tensor)>)
    requires
        preds.wf(),
    ensures
        match r {
            Ok(t) => {
                let batch = preds.shape@[0] as int;
                let d = differences(preds.data@, targets@);
                &&& preds.is_matrix()
                &&& preds.shape@[1] == 1
                &&& targets@.len() == batch
                &&& t.0 == sum_of(squares(d)).mul_spec(share(batch))
                &&& t.1.wf() && t.1.is_sized(batch, 1)
                &&& forall|i: int|
                    0 <= i < batch ==> #[trigger] t.1.data@[i] == (F32 {
                        bits: 0x4000_0000,
                    }).mul_spec(d[i]).mul_spec(share(batch))
                &&& 0 < batch <= 0x10_0000 ==> is_mean_square(preds.data@, targets@, t.0)
                &&& 0 < batch <= 0x10_0000 ==> forall|i: int|
                    0 <= i < batch ==> is_distance_gradient(
                        #[trigger] t.1.data@[i],
                        preds.data@[i],
                        targets@[i],
                        batch,
                    )
            },
            Err(e) => {
                ||| not_matrix(*preds, e)
                ||| preds.is_matrix() && e is DimMismatch && (preds.shape@[1] != 1 || targets@.len()
                    != preds.shape@[0])
            },
        },
{
    let (batch, cols) = match preds.matrix_dims() {
        Ok(d) => d,
        Err(e) => return Err(e),
    };
    if cols != 1 {
        return Err(mismatch("MSE expects 1 output col, got ", cols, " for batch ", batch));
    }
    if targets.len() != batch {
        return Err(mismatch("", targets.len(), " targets for batch ", batch));
    }
    let inv: F32 = F32::one().div(F32::from_u64(batch as u64));
    let ghost d = differences(preds.data@, targets@);
    let mut sq: Vec<F32> = Vec::new();
    let mut grad: Vec<F32> = Vec::new();
    let mut i: usize = 0;
    while i < batch
        invariant
            i <= batch == targets@.len(),
            preds.data@.len() == batch * 1,
            d == differences(preds.data@, targets@),
            sq@.len() == i,
            grad@.len() == i,
            forall|k: int| 0 <= k < i ==> #[trigger] sq@[k] == squares(d)[k],
            forall|k: int|
                0 <= k < i ==> #[trigger] grad@[k] == (F32 { bits: 0x4000_0000 }).mul_spec(
                    d[k],
                ).mul_spec(inv),
        decreases batch - i,
    {
        let diff: F32 = preds.data[i].sub(targets[i]);
        sq.push(diff.mul(diff));
        grad.push((F32 { bits: 0x4000_0000 }).mul(diff).mul(inv));
        i = i + 1;
    }
    assert(sq@ =~= squares(d));
    let loss: F32 = sum(sq.as_slice()).mul(inv);
    proof {
        if 0 < batch <= 0x10_0000 {
            squared_errors_are_means(preds.data@, targets@);
            assert forall|k: int| 0 <= k < batch implies is_distance_gradient(
                #[trigger] grad@[k],
                preds.data@[k],
                targets@[k],
                batch as int,
            ) by {
                gradients_are_twice_the_distances(preds.data@[k], targets@[k], batch as int);
                assert(grad@[k] == (F32 { bits: 0x4000_0000 }).mul_spec(d[k]).mul_spec(inv));
            }
        }
    }
    match Tensor::matrix(batch, 1, grad) {
        Ok(t) => Ok((loss, t)),
        Err(e) => Err(e),
    }
}

} // verus!
