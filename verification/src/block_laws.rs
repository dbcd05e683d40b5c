//! What a transformer block does to a row: norm, heads, sum, norm, feed-forward, sum; each
//! up to rounding.
use crate::attention_laws::{
    attends_by_products, block_heads_attend_by_products, cached_heads_attend_by_products,
};
use crate::decoder_laws::{is_affine, is_row_sum, layers_map_rows_by_weight_and_bias};
use crate::float::{of_int, F32};
use crate::float_errors::{lemma_add_miss, size};
use crate::index::lemma_row;
use crate::layer::{mean_of, norm_row, squares_of, LayerNorm, Linear, LN_EPS_BITS};
use crate::llm::lemma_image_rows;
use crate::math::Math;
use crate::norm_laws::{is_root_mean, is_standardized, layer_norms_standardize};
use crate::ops::{row_of, sum_of};
use crate::softmax_shares::exact_sum;
use crate::sum_errors::{exact_sizes, exact_spread, lemma_add_parts};
use crate::tensor::{lemma_product_2, Tensor};
use crate::transformer::{head_part, is_sum, BlockTrace, KvCache, TransformerBlock};
use vstd::prelude::*;

verus! {

/// The squared distances of a row from its mean have a finite mean.
pub open spec fn has_finite_spread(x: Seq<F32>) -> bool {
    sum_of(squares_of(x, mean_of(x))).div_spec(of_int(x.len() as int)).add_spec(
        F32 { bits: LN_EPS_BITS },
    ).finite_spec()
}

/// `y` counts the deviations `s` of `x` from `mean`, times `gamma` and shifted by `beta`;
/// `mean` is the mean of `x`, and `s` squared its mean squared distance and 1e-5.
pub open spec fn is_normed_via(
    x: Seq<F32>,
    gamma: Seq<F32>,
    beta: Seq<F32>,
    y: Seq<F32>,
    mean: F32,
    s: int,
) -> bool {
    let n = x.len() as int;
    &&& size(mean.units() * n - exact_sum(x)) * 0x20_0000 <= (n + 8) * exact_sizes(x) + 0x40_0000 * n
    &&& is_root_mean(s, exact_spread(x, mean), (F32 { bits: 0x3727_c5ac }).units(), n)
    &&& forall|i: int|
        0 <= i < n && (#[trigger] y[i]).finite_spec() ==> is_standardized(
            x[i],
            mean,
            s,
            gamma[i],
            beta[i],
            y[i],
        )
}

/// `y` is the row `x` under a layer norm.
pub open spec fn is_normed(l: LayerNorm, x: Seq<F32>, y: Seq<F32>) -> bool {
    &&& y.len() == x.len()
    &&& has_finite_spread(x) ==> exists|mean: F32, s: int| #[trigger]
        is_normed_via(x, l.gamma.data@, l.beta.data@, y, mean, s)
}

/// `y` has the positive elements of `x`, and zero in place of the others.
pub open spec fn is_kept_positive(x: Seq<F32>, y: Seq<F32>) -> bool {
    &&& y.len() == x.len()
    &&& forall|i: int|
        0 <= i < x.len() && !x[i].nan_spec() ==> (x[i].key() > 0 ==> #[trigger] y[i] == x[i]) && (
        x[i].key() <= 0 ==> y[i].zero_spec())
}

/// The row `x` with its query, key and value.
pub open spec fn is_projected_row(
    b: TransformerBlock,
    x: Seq<F32>,
    normed: Seq<F32>,
    q: Seq<F32>,
    k: Seq<F32>,
    v: Seq<F32>,
) -> bool {
    &&& is_normed(b.ln1, x, normed)
    &&& is_affine(b.q_proj, normed, q)
    &&& is_affine(b.k_proj, normed, k)
    &&& is_affine(b.v_proj, normed, v)
}

/// The row `y` that a block makes of `x`, whose heads have been mixed into `mixed`, by way
/// of the sum `mid`.
pub open spec fn is_block_row_via(
    b: TransformerBlock,
    x: Seq<F32>,
    mixed: Seq<F32>,
    y: Seq<F32>,
    projected: Seq<F32>,
    mid: Seq<F32>,
    normed: Seq<F32>,
    hidden: Seq<F32>,
    active: Seq<F32>,
    widened: Seq<F32>,
) -> bool {
    &&& is_affine(b.out_proj, mixed, projected)
    &&& is_row_sum(x, projected, mid)
    &&& is_normed(b.ln2, mid, normed)
    &&& is_affine(b.ffn1, normed, hidden)
    &&& is_kept_positive(hidden, active)
    &&& is_affine(b.ffn2, active, widened)
    &&& is_row_sum(mid, widened, y)
}

/// The row `y` that a block makes of `x`, whose heads have been mixed into `mixed`.
pub open spec fn is_block_row(
    b: TransformerBlock,
    x: Seq<F32>,
    mixed: Seq<F32>,
    y: Seq<F32>,
) -> bool {
    exists|
        projected: Seq<F32>,
        mid: Seq<F32>,
        normed: Seq<F32>,
        hidden: Seq<F32>,
        active: Seq<F32>,
        widened: Seq<F32>,
    | #[trigger]
        is_block_row_via(b, x, mixed, y, projected, mid, normed, hidden, active, widened)
}

/// Sizes for which the bounds on rounding hold.
pub open spec fn is_moderate(b: TransformerBlock) -> bool {
    &&& 0 < b.width <= 0x10_0000
    &&& b.ffn1.out_f <= 0x10_0000
    &&& b.context <= 0x10_0000
}

proof fn lemma_layer(l: Linear, x: Tensor, t: Tensor, r: int)
    requires
        l.fits(),
        l.in_f <= 0x10_0000,
        l.maps(x, t),
        x.wf(),
        0 <= r < x.shape@[0],
    ensures
        is_affine(l, row_of(x.data@, r, l.in_f as int), row_of(t.data@, r, l.out_f as int)),
{
    lemma_image_rows(l, x, t, r);
    layers_map_rows_by_weight_and_bias(l, row_of(x.data@, r, l.in_f as int));
}

proof fn lemma_norm(l: LayerNorm, x: Tensor, t: Tensor, r: int)
    requires
        l.maps(x, t),
        x.wf(),
        0 < l.width <= 0x10_0000,
        0 <= r < x.shape@[0],
    ensures
        is_normed(l, row_of(x.data@, r, l.width as int), row_of(t.data@, r, l.width as int)),
{
    lemma_product_2(x.shape@);
    lemma_row(r, x.shape@[0] as int, l.width as int);
    let row = row_of(x.data@, r, l.width as int);
    let y = row_of(t.data@, r, l.width as int);
    assert(y == norm_row(row, l.gamma.data@, l.beta.data@));
    if has_finite_spread(row) {
        let s = layer_norms_standardize(row, l.gamma.data@, l.beta.data@);
        assert(is_normed_via(row, l.gamma.data@, l.beta.data@, y, mean_of(row), s));
    }
}

proof fn lemma_sum(a: Tensor, b: Tensor, t: Tensor, r: int, c: int)
    requires
        is_sum(a, b, t),
        a.data@.len() == a.shape@[0] * c,
        b.data@.len() == a.data@.len(),
        0 <= r < a.shape@[0],
        c >= 0,
    ensures
        is_row_sum(row_of(a.data@, r, c), row_of(b.data@, r, c), row_of(t.data@, r, c)),
{
    lemma_row(r, a.shape@[0] as int, c);
    let (x, y, z) = (row_of(a.data@, r, c), row_of(b.data@, r, c), row_of(t.data@, r, c));
    assert forall|i: int| 0 <= i < x.len() && (#[trigger] z[i]).finite_spec() implies size(
        z[i].units() - (x[i].units() + y[i].units()),
    ) * 0x100_0000 <= size(x[i].units() + y[i].units()) by {
        assert(z[i] == t.data@[r * c + i] && t.data@[r * c + i] == x[i].add_spec(y[i]));
        lemma_add_parts(x[i], y[i]);
        lemma_add_miss(x[i], y[i]);
    }
}

/// What follows the heads.
proof fn lemma_finishes(b: TransformerBlock, x: Tensor, tr: BlockTrace, t: Tensor, n: int, r: int)
    requires
        b.fits(),
        is_moderate(b),
        b.finishes(x, tr, t),
        x.wf(),
        x.is_sized(n, b.width as int),
        tr.mixed.is_sized(n, b.width as int),
        tr.mixed.wf(),
        0 <= r < n,
    ensures
        is_block_row(
            b,
            row_of(x.data@, r, b.width as int),
            row_of(tr.mixed.data@, r, b.width as int),
            row_of(t.data@, r, b.width as int),
        ),
{
    let c = b.width as int;
    let h = b.ffn1.out_f as int;
    lemma_product_2(x.shape@);
    lemma_layer(b.out_proj, tr.mixed, tr.projected, r);
    lemma_sum(x, tr.projected, tr.mid, r, c);
    lemma_norm(b.ln2, tr.mid, tr.norm2, r);
    lemma_product_2(tr.norm2.shape@);
    lemma_layer(b.ffn1, tr.norm2, tr.hidden, r);
    lemma_row(r, n, h);
    let hidden = row_of(tr.hidden.data@, r, h);
    let active = row_of(tr.active.data@, r, h);
    assert forall|i: int| 0 <= i < hidden.len() && !hidden[i].nan_spec() implies (hidden[i].key() > 0
        ==> #[trigger] active[i] == hidden[i]) && (hidden[i].key() <= 0 ==> active[i].zero_spec()) by {
        assert(active[i] == tr.active.data@[r * h + i]);
    }
    lemma_product_2(tr.active.shape@);
    lemma_layer(b.ffn2, tr.active, tr.widened, r);
    lemma_sum(tr.mid, tr.widened, t, r, c);
    assert(is_block_row_via(
        b,
        row_of(x.data@, r, c),
        row_of(tr.mixed.data@, r, c),
        row_of(t.data@, r, c),
        row_of(tr.projected.data@, r, c),
        row_of(tr.mid.data@, r, c),
        row_of(tr.norm2.data@, r, c),
        hidden,
        active,
        row_of(tr.widened.data@, r, c),
    ));
}

/// What comes before the heads.
proof fn lemma_starts(b: TransformerBlock, x: Tensor, tr: BlockTrace, r: int)
    requires
        b.fits(),
        is_moderate(b),
        b.starts(x, tr),
        x.wf(),
        0 <= r < x.shape@[0],
    ensures
        is_projected_row(
            b,
            row_of(x.data@, r, b.width as int),
            row_of(tr.norm1.data@, r, b.width as int),
            row_of(tr.q.data@, r, b.width as int),
            row_of(tr.k.data@, r, b.width as int),
            row_of(tr.v.data@, r, b.width as int),
        ),
{
    lemma_norm(b.ln1, x, tr.norm1, r);
    lemma_product_2(tr.norm1.shape@);
    lemma_layer(b.q_proj, tr.norm1, tr.q, r);
    lemma_layer(b.k_proj, tr.norm1, tr.k, r);
    lemma_layer(b.v_proj, tr.norm1, tr.v, r);
}

/// A block takes each row through norm, query, key and value; its heads attend within the
/// sequence over the rows up to their own; what they mix is added to the row, and so is
/// what the feed-forward layers make of the norm of that sum.
pub proof fn transformer_rows_are_mixed_and_fed_forward<M: Math>(
    m: &M,
    b: TransformerBlock,
    x: Tensor,
    tr: BlockTrace,
    t: Tensor,
    r: int,
)
    requires
        b.fits(),
        is_moderate(b),
        x.wf(),
        b.explains(m, x, tr, t),
        0 <= r < x.shape@[0],
    ensures
        ({
            let c = b.width as int;
            let hd = c / (b.heads as int);
            let n = b.context as int;
            let row = row_of(x.data@, r, c);
            &&& is_projected_row(
                b,
                row,
                row_of(tr.norm1.data@, r, c),
                row_of(tr.q.data@, r, c),
                row_of(tr.k.data@, r, c),
                row_of(tr.v.data@, r, c),
            )
            &&& hd > 0 ==> forall|h: int|
                0 <= h < b.heads ==> attends_by_products(
                    m,
                    tr.q.data@,
                    r * c + h * hd,
                    tr.k.data@,
                    tr.v.data@,
                    (r / n) * n * c + h * hd,
                    c,
                    hd,
                    n,
                    r % n + 1,
                    tr.weights@.subrange(b.unit(r, h) * n, b.unit(r, h) * n + n),
                    #[trigger] head_part(tr.mixed.data@, r, h, c, hd),
                )
            &&& is_block_row(b, row, row_of(tr.mixed.data@, r, c), row_of(t.data@, r, c))
        }),
{
    let c = b.width as int;
    let hd = c / (b.heads as int);
    lemma_product_2(x.shape@);
    lemma_product_2(tr.mixed.shape@);
    lemma_starts(b, x, tr, r);
    lemma_finishes(b, x, tr, t, x.shape@[0] as int, r);
    if hd > 0 {
        assert(hd <= c) by (nonlinear_arith)
            requires
                hd == c / (b.heads as int),
                b.heads >= 1,
                c >= 0,
        ;
        let n = b.context as int;
        assert forall|h: int| 0 <= h < b.heads implies attends_by_products(
            m,
            tr.q.data@,
            r * c + h * hd,
            tr.k.data@,
            tr.v.data@,
            (r / n) * n * c + h * hd,
            c,
            hd,
            n,
            r % n + 1,
            tr.weights@.subrange(b.unit(r, h) * n, b.unit(r, h) * n + n),
            #[trigger] head_part(tr.mixed.data@, r, h, c, hd),
        ) by {
            assert(b.attends(m, tr, r, h));
            block_heads_attend_by_products(m, b, tr, r, h);
        }
    }
}

/// A block with a cache takes its one row the same way; the heads attend over the rows in
/// the cache and the new one.
pub proof fn cached_rows_are_mixed_and_fed_forward<M: Math>(
    m: &M,
    b: TransformerBlock,
    x: Tensor,
    before: KvCache,
    after: KvCache,
    tr: BlockTrace,
    t: Tensor,
)
    requires
        b.fits(),
        is_moderate(b),
        x.wf(),
        x.is_sized(1, b.width as int),
        b.explains_cached(m, x, before, after, tr, t),
        0 < after.count <= 0x10_0000,
    ensures
        ({
            let c = b.width as int;
            let hd = c / (b.heads as int);
            let n = after.count as int;
            let row = row_of(x.data@, 0, c);
            &&& is_projected_row(
                b,
                row,
                row_of(tr.norm1.data@, 0, c),
                row_of(tr.q.data@, 0, c),
                row_of(tr.k.data@, 0, c),
                row_of(tr.v.data@, 0, c),
            )
            &&& after.k@ == before.k@ + tr.k.data@
            &&& after.v@ == before.v@ + tr.v.data@
            &&& after.count == before.count + 1
            &&& hd > 0 ==> forall|h: int|
                0 <= h < b.heads ==> attends_by_products(
                    m,
                    tr.q.data@,
                    h * hd,
                    after.k@,
                    after.v@,
                    h * hd,
                    c,
                    hd,
                    n,
                    n,
                    tr.weights@.subrange(h * n, h * n + n),
                    #[trigger] head_part(tr.mixed.data@, 0, h, c, hd),
                )
            &&& is_block_row(b, row, row_of(tr.mixed.data@, 0, c), row_of(t.data@, 0, c))
        }),
{
    let c = b.width as int;
    let hd = c / (b.heads as int);
    let n = after.count as int;
    lemma_product_2(x.shape@);
    lemma_product_2(tr.mixed.shape@);
    lemma_starts(b, x, tr, 0);
    lemma_finishes(b, x, tr, t, 1, 0);
    if hd > 0 {
        assert(hd <= c) by (nonlinear_arith)
            requires
                hd == c / (b.heads as int),
                b.heads >= 1,
                c >= 0,
        ;
        assert forall|h: int| 0 <= h < b.heads implies attends_by_products(
            m,
            tr.q.data@,
            h * hd,
            after.k@,
            after.v@,
            h * hd,
            c,
            hd,
            n,
            n,
            tr.weights@.subrange(h * n, h * n + n),
            #[trigger] head_part(tr.mixed.data@, 0, h, c, hd),
        ) by {
            assert(b.attends_cached(m, tr.q.data@, after, tr.weights@, tr.mixed.data@, h));
            cached_heads_attend_by_products(
                m,
                b,
                tr.q.data@,
                after,
                tr.weights@,
                tr.mixed.data@,
                h,
            );
        }
    }
}

} // verus!
