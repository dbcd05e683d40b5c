//! What losses and their gradients are: means over the rows, and for each score its
//! share, less one for the target; all up to rounding.
use crate::activation_laws::lemma_half;
use crate::float::{lemma_magnitude_increases, of_int, F32, ONE_CODE};
use crate::float_errors::{
    lemma_add_sign, lemma_cancel, lemma_mul_miss, lemma_negated, lemma_of_int_miss, lemma_order,
    lemma_size_product, lemma_sub_miss, lemma_unit, lemma_value, positive, size, unit,
};
use crate::head_scales::lemma_quotient_finite;
use crate::index::{cell, lemma_cell, lemma_row};
use crate::llm_train::share_of;
use crate::loss::{
    cross_entropy_via, differences, is_cross_entropy, logit_gradient, negated_all, share, squares,
};
use crate::math::{is_ln, Math};
use crate::ops::{is_softmax, row_of, sum_of};
use crate::quant::all_finite;
use crate::rounding::lemma_round_at_most;
use crate::softmax_shares::{exact_sum, exp_is_a_share, is_share, softmax_weights_sum_to_one};
use crate::sum_errors::{
    exact_sizes, lemma_div_parts, lemma_mul_parts, lemma_over_count, lemma_square_miss,
    lemma_sub_parts, lemma_sum_miss,
};
use crate::tensor::Tensor;
use crate::train_model::{
    is_next_token_loss, loss_count, next_gradient, next_token_loss_via, predicted,
};
use vstd::arithmetic::power2::{lemma2_to64, lemma_pow2_adds, lemma_pow2_pos, pow2};
use vstd::prelude::*;

verus! {

/// `v` times `n` is `a`, up to rounding.
pub open spec fn is_part_of(v: int, n: int, a: int) -> bool {
    size(v * n - a) * 0x20_0000 <= size(a) + 0x20_0000 * n
}

/// A number times the inverse of a count.
#[verifier::rlimit(60)]
#[verifier::spinoff_prover]
proof fn lemma_times(v: int, a: int, i: int, n: int, p: int)
    requires
        p >= 0x1_0000_0000_0000_0000,
        0 < n <= 0x10_0000,
        size(i * n - p) * 0x40_0000 <= p + 0x40_0000 * n,
        size(v * p - a * i) * 0x100_0000 <= size(a * i) + 0x80_0000 * p,
    ensures
        is_part_of(v, n, a),
{
    let sa = size(a);
    let (vn, ai, ap) = (v * n, a * i, a * p);
    let ain = ai * n;
    let e = i * n - p;
    lemma_size_product(a, e);
    let se = size(e);
    let (sap, san) = (sa * p, sa * n);
    assert((sa * se) * 0x40_0000 <= sap + 0x40_0000 * san) by (nonlinear_arith)
        requires
            se * 0x40_0000 <= p + 0x40_0000 * n,
            sap == sa * p,
            san == sa * n,
            sa >= 0,
    ;
    assert(a * e == ain - ap) by (nonlinear_arith)
        requires
            e == i * n - p,
            ain == ai * n,
            ai == a * i,
            ap == a * p,
    ;
    assert(san * 0x1000_0000_0000 <= sap && san >= 0 && sap >= 0) by (nonlinear_arith)
        requires
            san == sa * n,
            sap == sa * p,
            n * 0x1000_0000_0000 <= p,
            sa >= 0,
            n > 0,
    ;
    let f = v * p - ai;
    lemma_size_product(f, n);
    lemma_size_product(ai, n);
    let (sf, sai, np) = (size(f), size(ai), n * p);
    assert((sf * n) * 0x100_0000 <= sai * n + 0x80_0000 * np && np > 0) by (nonlinear_arith)
        requires
            sf * 0x100_0000 <= sai + 0x80_0000 * p,
            np == n * p,
            n > 0,
            p > 0,
    ;
    let vnp = vn * p;
    assert(f * n == vnp - ain) by (nonlinear_arith)
        requires
            f == v * p - ai,
            vnp == vn * p,
            vn == v * n,
            ain == ai * n,
    ;
    lemma_size_product(a, p);
    let g = vn - a;
    lemma_size_product(g, p);
    assert(g * p == vnp - ap) by (nonlinear_arith)
        requires
            g == vn - a,
            vnp == vn * p,
            ap == a * p,
    ;
    let sg = size(g);
    let most = sa + 0x20_0000 * n;
    assert(most * p == sap + 0x20_0000 * np) by (nonlinear_arith)
        requires
            most == sa + 0x20_0000 * n,
            sap == sa * p,
            np == n * p,
    ;
    assert((sg * 0x20_0000) * p == (sg * p) * 0x20_0000) by (nonlinear_arith);
    lemma_cancel(sg * 0x20_0000, most, p);
}

/// The inverse of a count.
proof fn lemma_inverse(n: int)
    requires
        0 < n <= 0x10_0000,
    ensures
        ({
            let i = (F32 { bits: ONE_CODE }).div_spec(of_int(n));
            &&& positive(i)
            &&& !i.neg_spec()
            &&& size(i.units() * n - unit()) * 0x40_0000 <= unit() + 0x40_0000 * n
            &&& i.units() <= 2 * unit()
        }),
        unit() >= 0x1_0000_0000_0000_0000,
{
    lemma_unit();
    lemma_of_int_miss(n);
    lemma_value(of_int(n));
    let one = F32 { bits: ONE_CODE };
    let i = one.div_spec(of_int(n));
    lemma_big_unit();
    lemma_quotient_finite(of_int(n));
    lemma_over_count(one, n);
    lemma_value(i);
    assert(i.units() > 0 ==> i.units() <= i.units() * n) by (nonlinear_arith)
        requires
            n >= 1,
    ;
    if i.units() <= 0 {
        assert(i.units() * n <= 0) by (nonlinear_arith)
            requires
                i.units() <= 0,
                n > 0,
        ;
    }
}

proof fn lemma_big_unit()
    ensures
        unit() >= 0x1_0000_0000_0000_0000,
{
    lemma2_to64();
    lemma_pow2_adds(64, 85);
    lemma_pow2_pos(85);
    let q = pow2(85) as int;
    assert(0x1_0000_0000_0000_0000 * q >= 0x1_0000_0000_0000_0000) by (nonlinear_arith)
        requires
            q >= 1,
    ;
}

/// A number times the share of one row of `n` is its `n`th part, up to rounding.
pub proof fn shares_divide_by_the_count(a: F32, n: int)
    requires
        0 < n <= 0x10_0000,
    ensures
        a.mul_spec(share(n)).finite_spec() ==> is_part_of(a.mul_spec(share(n)).units(), n, a.units()),
        a.mul_spec(share_of(n)).finite_spec() ==> is_part_of(
            a.mul_spec(share_of(n)).units(),
            n,
            a.units(),
        ),
{
    lemma_inverse(n);
    lemma_unit();
    let i = share(n);
    assert(i == share_of(n));
    let v = a.mul_spec(i);
    if v.finite_spec() {
        lemma_mul_parts(a, i);
        lemma_mul_miss(a, i);
        lemma_times(v.units(), a.units(), i.units(), n, unit());
    }
}

/// The mean of numbers with their signs turned: times the count it is the sum of the
/// numbers, turned, up to rounding.
pub open spec fn is_negated_mean(v: F32, s: Seq<F32>, n: int) -> bool {
    v.finite_spec() ==> size(v.units() * n + exact_sum(s)) * 0x10_0000 <= (s.len() + 8) * exact_sizes(s)
        + 0x10_0000 * n
}

proof fn lemma_negated_sums(s: Seq<F32>)
    requires
        all_finite(s),
    ensures
        exact_sum(negated_all(s)) == -exact_sum(s),
        exact_sizes(negated_all(s)) == exact_sizes(s),
    decreases s.len(),
{
    let t = negated_all(s);
    if s.len() > 0 {
        let init = s.drop_last();
        assert forall|i: int| 0 <= i < init.len() implies (#[trigger] init[i]).finite_spec() by {
            assert(init[i] == s[i]);
        }
        lemma_negated_sums(init);
        assert(t.drop_last() =~= negated_all(init));
        assert(s[s.len() - 1].finite_spec());
        lemma_negated(s.last());
    }
}

/// The sum of turned numbers over a count.
proof fn lemma_negated_mean(v: int, u: int, e: int, z: int, k: int, n: int)
    requires
        0 <= k <= 0x10_0000,
        n > 0,
        z >= 0,
        size(e) <= z,
        is_part_of(v, n, u),
        size(u + e) * 0x80_0000 <= k * z,
    ensures
        size(v * n + e) * 0x10_0000 <= (k + 8) * z + 0x10_0000 * n,
{
    let kz = k * z;
    assert((k + 8) * z == kz + 8 * z && 0 <= kz <= 0x10_0000 * z) by (nonlinear_arith)
        requires
            kz == k * z,
            0 <= k <= 0x10_0000,
            z >= 0,
    ;
}

/// Finite negated numbers are negated finite numbers.
proof fn lemma_negated_finite(s: Seq<F32>)
    requires
        all_finite(negated_all(s)),
    ensures
        all_finite(s),
{
    assert forall|i: int| 0 <= i < s.len() implies (#[trigger] s[i]).finite_spec() by {
        assert(negated_all(s)[i].finite_spec());
    }
}

/// A gradient of a score: times the count it is the share, less one for the target, up to
/// rounding; so it is not negative, but for the target, where it is not positive.
pub open spec fn is_score_gradient(g: F32, p: F32, is_target: bool, n: int) -> bool {
    let d = p.units() - if is_target {
        unit()
    } else {
        0
    };
    &&& g.finite_spec()
    &&& size(g.units() * n - d) * 0x20_0000 <= 2 * size(d) + 0x20_0000 * n
    &&& is_target ==> g.key() <= 0
    &&& !is_target ==> g.key() >= 0
}

/// The difference of a share and one or zero.
proof fn lemma_less(p: F32, is_target: bool)
    requires
        is_share(p),
    ensures
        ({
            let t = if is_target {
                F32 { bits: ONE_CODE }
            } else {
                F32 { bits: 0 }
            };
            let d = p.sub_spec(t);
            &&& d.finite_spec()
            &&& size(d.units()) <= unit()
            &&& p.finite_spec()
            &&& 0 <= p.units() <= unit()
            &&& size(d.units() - (p.units() - t.units())) * 0x100_0000 <= size(
                p.units() - t.units(),
            )
            &&& is_target ==> d.key() <= 0 && d.units() <= 0
            &&& !is_target ==> d.key() >= 0 && d.units() >= 0
        }),
{
    lemma_unit();
    let one = F32 { bits: ONE_CODE };
    let zero = F32 { bits: 0 };
    lemma_value(zero);
    lemma_value(p);
    lemma_order(p, one);
    lemma_order(zero, p);
    let t = if is_target {
        one
    } else {
        zero
    };
    lemma_negated(t);
    lemma_add_sign(p, t.negated());
    let d = p.sub_spec(t);
    assert(d.finite_spec() && d.code_spec() <= ONE_CODE) by {
        reveal(F32::add_spec);
        let n = size(p.units() - t.units());
        assert(n <= unit() * 1);
        lemma_round_at_most(n, 1, ONE_CODE as int);
    }
    if d.code_spec() < ONE_CODE {
        lemma_magnitude_increases(d.code_spec(), ONE_CODE as int);
    }
    lemma_sub_miss(p, t);
    lemma_value(d);
}

/// One gradient.
#[verifier::rlimit(60)]
#[verifier::spinoff_prover]
proof fn lemma_gradient(g: int, d: int, e: int, n: int)
    requires
        n > 0,
        size(e - d) * 0x100_0000 <= size(d),
        is_part_of(g, n, e),
    ensures
        size(g * n - d) * 0x20_0000 <= 2 * size(d) + 0x20_0000 * n,
{
}

/// The gradient of cross-entropy.
proof fn lemma_logit(p: F32, is_target: bool, n: int)
    requires
        is_share(p),
        0 < n <= 0x10_0000,
    ensures
        is_score_gradient(logit_gradient(p, is_target, share(n)), p, is_target, n),
{
    lemma_unit();
    lemma_inverse(n);
    lemma_less(p, is_target);
    lemma_value(F32 { bits: 0 });
    let t = if is_target {
        F32 { bits: ONE_CODE }
    } else {
        F32 { bits: 0 }
    };
    let d = p.sub_spec(t);
    let g = logit_gradient(p, is_target, share(n));
    assert(g == d.mul_spec(share(n)));
    lemma_small_product(d, share(n));
    shares_divide_by_the_count(d, n);
    lemma_mul_miss(d, share(n));
    lemma_value(g);
    lemma_gradient(g.units(), p.units() - t.units(), d.units(), n);
}

/// A product with a number of at most one is finite.
proof fn lemma_small_product(d: F32, i: F32)
    requires
        d.finite_spec(),
        positive(i),
        !i.neg_spec(),
        i.units() <= 2 * unit(),
        size(d.units()) <= unit(),
    ensures
        d.mul_spec(i).finite_spec(),
        d.key() <= 0 ==> d.mul_spec(i).key() <= 0,
        d.key() >= 0 ==> d.mul_spec(i).key() >= 0,
{
    reveal(F32::mul_spec);
    lemma_unit();
    lemma_value(d);
    lemma_value(i);
    let p = unit();
    let num = d.mag() * i.mag();
    lemma_half();
    let top = 128 * 0x80_0000int;
    assert(0 <= num <= (2 * p) * p) by (nonlinear_arith)
        requires
            num == d.mag() * i.mag(),
            0 <= d.mag() <= p,
            0 <= i.mag() <= 2 * p,
    ;
    lemma_round_at_most(num, p, top);
    if d.mag() == 0 {
        assert(num == 0) by (nonlinear_arith)
            requires
                num == d.mag() * i.mag(),
                d.mag() == 0,
        ;
        lemma_round_at_most(0, p, 0);
    }
}

/// Cross-entropy: for some shares, which are the softmax of the rows, each gradient is
/// the share, less one for the target, over the count of rows; and the loss is the mean of
/// the logarithms of the shares of the targets, with its sign turned.
pub open spec fn is_mean_entropy<M: Math>(
    m: &M,
    logits: Seq<F32>,
    rows: int,
    vocab: int,
    targets: Seq<int>,
    loss: F32,
    grad: Seq<F32>,
    probs: Seq<Seq<F32>>,
    logs: Seq<F32>,
) -> bool {
    &&& probs.len() == rows
    &&& logs.len() == rows
    &&& forall|i: int|
        0 <= i < rows ==> is_softmax(m, row_of(logits, i, vocab), #[trigger] probs[i])
    &&& forall|i: int|
        0 <= i < rows ==> is_ln(
            m,
            probs[i][targets[i]].max_spec(F32 { bits: 0x2b8c_bccc }),
            #[trigger] logs[i],
        )
    &&& is_negated_mean(loss, logs, rows)
    &&& forall|i: int, j: int|
        0 <= i < rows && 0 <= j < vocab ==> is_score_gradient(
            grad[#[trigger] cell(i, j, vocab)],
            probs[i][j],
            j == targets[i],
            rows,
        )
}

/// The classes of rows.
pub open spec fn class_targets(targets: Seq<usize>) -> Seq<int> {
    Seq::new(targets.len(), |i: int| targets[i] as int)
}

/// The token behind each but the last.
pub open spec fn next_targets(tokens: Seq<usize>) -> Seq<int> {
    Seq::new((tokens.len() - 1) as nat, |t: int| tokens[t + 1] as int)
}

/// Softmax cross-entropy is a mean entropy of the rows.
pub proof fn cross_entropies_are_means_over_the_rows<M: Math>(
    m: &M,
    logits: Tensor,
    targets: Seq<usize>,
    loss: F32,
    grad: Seq<F32>,
)
    requires
        exp_is_a_share(m),
        logits.data@.len() == logits.shape@[0] * logits.shape@[1],
        0 < logits.shape@[0] <= 0x10_0000,
        0 < logits.shape@[1] <= 0x10_0000,
        all_finite(logits.data@),
        targets.len() == logits.shape@[0],
        forall|i: int| 0 <= i < targets.len() ==> #[trigger] targets[i] < logits.shape@[1],
        is_cross_entropy(m, logits, targets, loss, grad),
    ensures
        exists|probs: Seq<Seq<F32>>, logs: Seq<F32>| #[trigger]
            is_mean_entropy(
                m,
                logits.data@,
                logits.shape@[0] as int,
                logits.shape@[1] as int,
                class_targets(targets),
                loss,
                grad,
                probs,
                logs,
            ),
{
    let rows = logits.shape@[0] as int;
    let vocab = logits.shape@[1] as int;
    let (flat, logs) = choose|probs: Seq<F32>, logs: Seq<F32>| #[trigger]
        cross_entropy_via(m, logits, targets, probs, logs, loss, grad);
    let probs = Seq::new(rows as nat, |i: int| row_of(flat, i, vocab));
    let to = class_targets(targets);
    assert forall|i: int| 0 <= i < rows implies is_softmax(
        m,
        row_of(logits.data@, i, vocab),
        #[trigger] probs[i],
    ) by {
        assert(is_softmax(m, row_of(logits.data@, i, vocab), row_of(flat, i, vocab)));
    }
    assert forall|i: int, j: int| 0 <= i < rows && 0 <= j < vocab implies is_score_gradient(
        grad[#[trigger] cell(i, j, vocab)],
        probs[i][j],
        j == to[i],
        rows,
    ) by {
        let row = row_of(logits.data@, i, vocab);
        lemma_row(i, rows, vocab);
        lemma_cell(i, j, rows, vocab);
        assert forall|k: int| 0 <= k < row.len() implies (#[trigger] row[k]).finite_spec() by {
            assert(row[k] == logits.data@[i * vocab + k]);
        }
        assert(is_softmax(m, row, probs[i]));
        softmax_weights_sum_to_one(m, row, probs[i]);
        assert(is_share(probs[i][j]));
        assert(probs[i][j] == flat[cell(i, j, vocab)]);
        lemma_logit(probs[i][j], j == to[i], rows);
    }
    assert forall|i: int| 0 <= i < rows implies is_ln(
        m,
        probs[i][to[i]].max_spec(F32 { bits: 0x2b8c_bccc }),
        #[trigger] logs[i],
    ) by {
        lemma_row(i, rows, vocab);
        assert(targets[i] < vocab);
        assert(probs[i][to[i]] == flat[cell(i, targets[i] as int, vocab)]);
    }
    let neg = negated_all(logs);
    if loss.finite_spec() {
        lemma_mul_parts(sum_of(neg), share(rows));
        lemma_sum_miss(neg);
        lemma_negated_finite(logs);
        lemma_negated_sums(logs);
        shares_divide_by_the_count(sum_of(neg), rows);
        lemma_negated_mean(
            loss.units(),
            sum_of(neg).units(),
            exact_sum(logs),
            exact_sizes(logs),
            rows,
            rows,
        );
    }
    assert(is_mean_entropy(m, logits.data@, rows, vocab, to, loss, grad, probs, logs));
}

/// The gradient of the loss of next tokens.
proof fn lemma_next(p: F32, is_target: bool, n: int)
    requires
        is_share(p),
        0 < n <= 0x10_0000,
    ensures
        is_score_gradient(next_gradient(p, is_target, of_int(n)), p, is_target, n),
{
    lemma_unit();
    lemma_less(p, is_target);
    lemma_value(F32 { bits: 0 });
    let t = if is_target {
        F32 { bits: ONE_CODE }
    } else {
        F32 { bits: 0 }
    };
    let d = p.sub_spec(t);
    let g = next_gradient(p, is_target, of_int(n));
    assert(g == d.div_spec(of_int(n)));
    lemma_of_int_miss(n);
    lemma_value(of_int(n));
    lemma_value(d);
    lemma_small_quotient(d, of_int(n));
    lemma_over_count(d, n);
    lemma_value(g);
    lemma_gradient(g.units(), p.units() - t.units(), d.units(), n);
}

/// A quotient by a number of at least one is finite, and keeps the sign.
proof fn lemma_small_quotient(d: F32, c: F32)
    requires
        d.finite_spec(),
        positive(c),
        c.units() >= unit(),
    ensures
        d.div_spec(c).finite_spec(),
        d.key() <= 0 ==> d.div_spec(c).key() <= 0,
        d.key() >= 0 ==> d.div_spec(c).key() >= 0,
{
    reveal(F32::div_spec);
    lemma_unit();
    lemma_value(d);
    lemma_value(c);
    let p = unit();
    let num = d.mag() * p;
    assert(0 <= num <= d.mag() * c.mag()) by (nonlinear_arith)
        requires
            num == d.mag() * p,
            d.mag() >= 0,
            c.mag() >= p,
            p > 0,
    ;
    lemma_round_at_most(num, c.mag(), d.code_spec());
}

/// The loss of a run of tokens is a mean entropy in which every row but the last has the
/// next token for its target; the last row has no gradient.
pub proof fn rows_are_held_to_the_next_token<M: Math>(
    m: &M,
    logits: Seq<F32>,
    tokens: Seq<usize>,
    vocab: int,
    loss: F32,
    d: Seq<F32>,
)
    requires
        exp_is_a_share(m),
        logits.len() == tokens.len() * vocab,
        1 < tokens.len() <= 0x10_0000,
        0 < vocab <= 0x10_0000,
        all_finite(logits),
        is_next_token_loss(m, logits, tokens, vocab, loss, d),
    ensures
        exists|probs: Seq<Seq<F32>>, logs: Seq<F32>| #[trigger]
            is_mean_entropy(
                m,
                logits,
                tokens.len() - 1,
                vocab,
                next_targets(tokens),
                loss,
                d,
                probs,
                logs,
            ),
        forall|j: int|
            0 <= j < vocab ==> (#[trigger] d[cell(tokens.len() - 1, j, vocab)]).zero_spec(),
{
    let n = tokens.len() - 1;
    let (probs, logs) = choose|probs: Seq<Seq<F32>>, logs: Seq<F32>| #[trigger]
        next_token_loss_via(m, logits, tokens, vocab, probs, logs, loss, d);
    assert(predicted(tokens.len() as int) == n && loss_count(tokens.len() as int) == of_int(n));
    let to = next_targets(tokens);
    assert forall|i: int, j: int| 0 <= i < n && 0 <= j < vocab implies is_score_gradient(
        d[#[trigger] cell(i, j, vocab)],
        probs[i][j],
        j == to[i],
        n,
    ) by {
        let row = row_of(logits, i, vocab);
        lemma_row(i, tokens.len() as int, vocab);
        assert forall|k: int| 0 <= k < row.len() implies (#[trigger] row[k]).finite_spec() by {
            assert(row[k] == logits[i * vocab + k]);
        }
        assert(is_softmax(m, row, probs[i]));
        softmax_weights_sum_to_one(m, row, probs[i]);
        assert(is_share(probs[i][j]));
        lemma_next(probs[i][j], j == to[i], n);
    }
    let neg = negated_all(logs);
    if loss.finite_spec() {
        lemma_div_parts(sum_of(neg), of_int(n));
        lemma_sum_miss(neg);
        lemma_negated_finite(logs);
        lemma_negated_sums(logs);
        lemma_over_count(sum_of(neg), n);
        lemma_negated_mean(
            loss.units(),
            sum_of(neg).units(),
            exact_sum(logs),
            exact_sizes(logs),
            n,
            n,
        );
    }
    assert(is_mean_entropy(m, logits, n, vocab, to, loss, d, probs, logs));
}

/// A squared error is the mean of the squared distances to the targets, up to rounding.
pub open spec fn is_mean_square(preds: Seq<F32>, targets: Seq<F32>, loss: F32) -> bool {
    let n = targets.len() as int;
    let p = unit();
    let t = exact_distance(preds, targets, n as nat);
    loss.finite_spec() ==> size((loss.units() * n) * p - t) * 0x10_0000 <= (n + 8) * t + n
        * (0x80_0000 * p)
}

/// The sum of squared distances of the first `n` numbers, without rounding.
pub open spec fn exact_distance(a: Seq<F32>, b: Seq<F32>, n: nat) -> int
    decreases n,
{
    if n == 0 {
        0
    } else {
        exact_distance(a, b, (n - 1) as nat) + (a[n - 1].units() - b[n - 1].units()) * (a[n
            - 1].units() - b[n - 1].units())
    }
}

/// The exact sum of squares against the sum of the rounded ones.
#[verifier::rlimit(60)]
#[verifier::spinoff_prover]
proof fn lemma_squares_sum(a: Seq<F32>, b: Seq<F32>, q: Seq<F32>, n: nat)
    requires
        q.len() == n,
        all_finite(q),
        forall|i: int|
            0 <= i < n ==> #[trigger] q[i] == a[i].sub_spec(b[i]).mul_spec(a[i].sub_spec(b[i])),
    ensures
        exact_sum(q) >= 0,
        exact_sizes(q) == exact_sum(q),
        exact_distance(a, b, n) >= 0,
        size(exact_sum(q) * unit() - exact_distance(a, b, n)) * 0x100_0000 <= 4 * exact_distance(
            a,
            b,
            n,
        ) + n * (0x80_0000 * unit()),
    decreases n,
{
    let p = unit();
    lemma_unit();
    if n > 0 {
        let k = (n - 1) as nat;
        let q0 = q.drop_last();
        assert forall|i: int| 0 <= i < q0.len() implies (#[trigger] q0[i]).finite_spec() by {
            assert(q0[i] == q[i]);
        }
        assert forall|i: int| 0 <= i < k implies #[trigger] q0[i] == a[i].sub_spec(b[i]).mul_spec(
            a[i].sub_spec(b[i]),
        ) by {
            assert(q0[i] == q[i]);
        }
        lemma_squares_sum(a, b, q0, k);
        assert(q[n - 1] == q.last());
        lemma_square_miss(a[n - 1], b[n - 1], q.last());
        let (x, y) = (exact_sum(q0), q.last().units());
        assert((x + y) * p == x * p + y * p) by (nonlinear_arith);
        let w = 0x80_0000 * p;
        assert(n * w == k * w + w) by (nonlinear_arith)
            requires
                n == k + 1,
        ;
        let e = a[n - 1].units() - b[n - 1].units();
        assert(e * e >= 0) by (nonlinear_arith);
    } else {
        assert(0 * p == 0 && 0 * (0x80_0000 * p) == 0) by (nonlinear_arith);
    }
}

#[verifier::rlimit(60)]
#[verifier::spinoff_prover]
proof fn lemma_mean_of_squares(v: int, u: int, e: int, t: int, n: int, p: int)
    requires
        p >= 0x100_0000,
        0 < n <= 0x10_0000,
        e >= 0,
        t >= 0,
        is_part_of(v, n, u),
        size(u - e) * 0x80_0000 <= n * e,
        size(e * p - t) * 0x100_0000 <= 4 * t + n * (0x80_0000 * p),
    ensures
        size((v * n) * p - t) * 0x10_0000 <= (n + 8) * t + n * (0x80_0000 * p),
{
    let (ep, up, vn, np, nt) = (e * p, u * p, v * n, n * p, n * t);
    let vnp = vn * p;
    let ne = n * e;
    let nep = n * ep;
    let nnp = n * np;
    assert(n * (0x80_0000 * p) == 0x80_0000 * np && (n + 8) * t == nt + 8 * t && ne * p == nep)
        by (nonlinear_arith)
        requires
            np == n * p,
            nt == n * t,
            ne == n * e,
            nep == n * ep,
            ep == e * p,
    ;
    assert(ep >= 0 && np > 0 && 0 <= nt <= 0x10_0000 * t && 0 <= nnp <= 0x10_0000 * np && nep >= 0)
        by (nonlinear_arith)
        requires
            ep == e * p,
            e >= 0,
            p > 0,
            np == n * p,
            0 < n <= 0x10_0000,
            nt == n * t,
            t >= 0,
            nnp == n * np,
            nep == n * ep,
    ;
    assert(nep * 0x100_0000 <= 0x100_0004 * nt + 0x80_0000 * nnp) by (nonlinear_arith)
        requires
            ep * 0x100_0000 <= 0x100_0004 * t + 0x80_0000 * np,
            nep == n * ep,
            nt == n * t,
            nnp == n * np,
            n > 0,
    ;
    let g = u - e;
    lemma_size_product(g, p);
    let sg = size(g);
    assert((sg * p) * 0x80_0000 <= nep) by (nonlinear_arith)
        requires
            sg * 0x80_0000 <= ne,
            ne * p == nep,
            p > 0,
    ;
    let h = vn - u;
    lemma_size_product(h, p);
    lemma_size_product(u, p);
    let (sh, su) = (size(h), size(u));
    assert((sh * p) * 0x20_0000 <= su * p + 0x20_0000 * np) by (nonlinear_arith)
        requires
            sh * 0x20_0000 <= su + 0x20_0000 * n,
            np == n * p,
            p > 0,
    ;
    assert(g * p == up - ep && h * p == vnp - up) by (nonlinear_arith)
        requires
            g == u - e,
            up == u * p,
            ep == e * p,
            h == vn - u,
            vnp == vn * p,
    ;
}

/// The sum of squared distances, times the share of a row, is their mean.
pub proof fn squared_errors_are_means(preds: Seq<F32>, targets: Seq<F32>)
    requires
        0 < targets.len() <= 0x10_0000,
    ensures
        is_mean_square(
            preds,
            targets,
            sum_of(squares(differences(preds, targets))).mul_spec(share(targets.len() as int)),
        ),
{
    lemma_unit();
    let n = targets.len() as int;
    let q = squares(differences(preds, targets));
    let u = sum_of(q);
    let loss = u.mul_spec(share(n));
    if loss.finite_spec() {
        lemma_mul_parts(u, share(n));
        lemma_sum_miss(q);
        lemma_squares_sum(preds, targets, q, n as nat);
        shares_divide_by_the_count(u, n);
        lemma_mean_of_squares(
            loss.units(),
            u.units(),
            exact_sum(q),
            exact_distance(preds, targets, n as nat),
            n,
            unit(),
        );
    }
}

/// A gradient of a squared error: times the count it is twice the distance to the target,
/// up to rounding.
pub open spec fn is_distance_gradient(g: F32, pred: F32, target: F32, n: int) -> bool {
    let e = pred.units() - target.units();
    g.finite_spec() ==> size(g.units() * n - 2 * e) * 0x20_0000 <= 4 * size(e) + 0x20_0000 * (n + 1)
}

/// Gradients of a squared error are twice the distances, over the count.
pub proof fn gradients_are_twice_the_distances(pred: F32, target: F32, n: int)
    requires
        0 < n <= 0x10_0000,
    ensures
        is_distance_gradient(
            (F32 { bits: 0x4000_0000 }).mul_spec(pred.sub_spec(target)).mul_spec(share(n)),
            pred,
            target,
            n,
        ),
{
    lemma_unit();
    lemma_half();
    let two = F32 { bits: 0x4000_0000 };
    let d = pred.sub_spec(target);
    let x = two.mul_spec(d);
    let g = x.mul_spec(share(n));
    if g.finite_spec() {
        lemma_mul_parts(x, share(n));
        lemma_mul_parts(two, d);
        lemma_sub_parts(pred, target);
        lemma_sub_miss(pred, target);
        lemma_mul_miss(two, d);
        shares_divide_by_the_count(x, n);
        assert(two.units() == 2 * unit());
        let (p, xu, du) = (unit(), x.units(), d.units());
        let h = xu - 2 * du;
        lemma_size_product(h, p);
        lemma_size_product(du, 2 * p);
        let (sh, sd) = (size(h), size(du));
        assert(xu * p - (2 * p) * du == h * p && (2 * p) * du == du * (2 * p) && (sh * p)
            * 0x100_0000 == (sh * 0x100_0000) * p && sd * (2 * p) + 0x80_0000 * p == (2 * sd
            + 0x80_0000) * p) by (nonlinear_arith)
            requires
                h == xu - 2 * du,
        ;
        lemma_cancel(sh * 0x100_0000, 2 * sd + 0x80_0000, p);
    }
}

} // verus!
