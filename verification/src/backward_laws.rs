//! How the gradients of a block come about from those of its rows: through the sums, the
//! feed-forward part and the attention; all up to rounding.
use crate::activation::is_sigmoid;
use crate::adam_laws::lemma_two_products;
use crate::attention::head_scale_of;
use crate::attention_laws::is_inverse_root;
use crate::decoder_laws::{is_row_sum, lemma_rows_add};
use crate::float::F32;
use crate::float_errors::{lemma_mul_miss, lemma_unit, size, unit};
use crate::gradient_laws::{
    added, bias_gradients_add_up_the_outputs, column_of, input_gradients_weigh_output_gradients,
    is_added, is_mean_under, is_score_gradient_about, keys_and_values_add_up_the_heads_that_met_them,
    met, numbers_are_added_up, queries_add_up_the_keys_they_met,
    score_gradients_are_weighed_about_their_mean, weight_gradients_join_inputs_and_outputs,
    weights_have_the_products_with_values_for_gradients,
};
use crate::head_scales::scores_spread_alike_in_heads_of_any_size;
use crate::index::cell;
use crate::layer::Linear;
use crate::llm::{add_rows, Attention, FeedForward, LlamaBlock};
use crate::math::Math;
use crate::sum_errors::{lemma_mul_parts, near_dot};
use crate::train_attention::{
    all_score_gradients, attn_backed, attn_backed_via, cache_sized, query_gradients, rows_view,
    seen_sum, seen_sums, weight_gradients, AttnCache, BlockBuf,
};
use crate::train_block::{
    block_backed_via, ffn_backed, ffn_backed_via, is_gate_gradient, is_value_gradient, unmasked, BlockBack,
    BlockCache, FfnCache,
};
use crate::train_ops::{
    affine_adds, affine_dx, is_swish, is_swish_slope, norm_dw, norm_rows_dx, norm_sum, LinBuf, Rope,
};
use vstd::prelude::*;

verus! {

// ---------------------------------------------------------------------------
// Layers
// ---------------------------------------------------------------------------

/// The gradients of a layer have grown by those of `rows` rows: of each weight by the sum of
/// what went in times the gradient of what came out, of each bias by the sum of the latter.
pub open spec fn is_layer_gradient(
    l: Linear,
    x: Seq<F32>,
    dy: Seq<F32>,
    rows: int,
    g0: LinBuf,
    g1: LinBuf,
) -> bool {
    let (k, n) = (l.in_f as int, l.out_f as int);
    &&& forall|i: int, o: int|
        0 <= i < k && 0 <= o < n && g1.w@[#[trigger] cell(i, o, n)].finite_spec() ==> near_dot(
            g0.w@[cell(i, o, n)],
            column_of(x, i, k, rows),
            0,
            column_of(dy, o, n, rows),
            0,
            1,
            rows as nat,
            g1.w@[cell(i, o, n)],
        )
    &&& forall|o: int|
        0 <= o < n ==> is_added(#[trigger] g1.b@[o], g0.b@[o], column_of(dy, o, n, rows))
}

/// The gradients of what goes into a layer: each the sum of the gradients of the outputs,
/// times the weights that lead there.
pub open spec fn is_input_gradient(l: Linear, dy: Seq<F32>, rows: int, dx: Seq<F32>) -> bool {
    let (k, n) = (l.in_f as int, l.out_f as int);
    forall|r: int, i: int|
        0 <= r < rows && 0 <= i < k && dx[#[trigger] cell(r, i, k)].finite_spec() ==> near_dot(
            F32 { bits: 0 },
            dy,
            r * n,
            l.weight.data@,
            i * n,
            1,
            n as nat,
            dx[cell(r, i, k)],
        )
}

proof fn lemma_layer(l: Linear, x: Seq<F32>, dy: Seq<F32>, rows: int, g0: LinBuf, g1: LinBuf)
    requires
        affine_adds(l, x, dy, rows, g0, g1),
        0 <= rows <= 0x10_0000,
    ensures
        is_layer_gradient(l, x, dy, rows, g0, g1),
{
    let (k, n) = (l.in_f as int, l.out_f as int);
    assert forall|i: int, o: int|
        0 <= i < k && 0 <= o < n && g1.w@[#[trigger] cell(i, o, n)].finite_spec() implies near_dot(
        g0.w@[cell(i, o, n)],
        column_of(x, i, k, rows),
        0,
        column_of(dy, o, n, rows),
        0,
        1,
        rows as nat,
        g1.w@[cell(i, o, n)],
    ) by {
        weight_gradients_join_inputs_and_outputs(l, x, dy, rows, g0.w@, i, o);
    }
    assert forall|o: int| 0 <= o < n implies is_added(
        #[trigger] g1.b@[o],
        g0.b@[o],
        column_of(dy, o, n, rows),
    ) by {
        bias_gradients_add_up_the_outputs(l, dy, rows, g0.b@, o);
    }
}

proof fn lemma_input(l: Linear, dy: Seq<F32>, rows: int)
    requires
        l.out_f <= 0x10_0000,
    ensures
        is_input_gradient(l, dy, rows, affine_dx(l, dy, rows)),
{
    let k = l.in_f as int;
    let dx = affine_dx(l, dy, rows);
    assert forall|r: int, i: int|
        0 <= r < rows && 0 <= i < k && dx[#[trigger] cell(r, i, k)].finite_spec() implies near_dot(
        F32 { bits: 0 },
        dy,
        r * l.out_f,
        l.weight.data@,
        i * l.out_f,
        1,
        l.out_f as nat,
        dx[cell(r, i, k)],
    ) by {
        input_gradients_weigh_output_gradients(l, dy, rows, r, i);
    }
}

/// `q` is the product of three numbers, up to rounding.
pub open spec fn is_triple(q: F32, a: F32, b: F32, c: F32) -> bool {
    let p = unit();
    let exact = (a.units() * b.units()) * c.units();
    q.finite_spec() ==> size(q.units() * (p * p) - exact) * 0x40_0000 <= size(exact) + 0x40_0000 * (
    size(c.units()) * p) + 0x40_0000 * (p * p)
}

pub(crate) proof fn lemma_triple(a: F32, b: F32, c: F32)
    ensures
        is_triple(a.mul_spec(b).mul_spec(c), a, b, c),
        is_triple(c.mul_spec(a.mul_spec(b)), a, b, c),
{
    lemma_unit();
    let k = a.mul_spec(b);
    let q = k.mul_spec(c);
    if q.finite_spec() {
        lemma_mul_parts(k, c);
        lemma_mul_parts(a, b);
        lemma_mul_miss(a, b);
        lemma_mul_miss(k, c);
        lemma_two_products(a.units(), b.units(), c.units(), k.units(), q.units(), unit());
    }
    let r = c.mul_spec(k);
    if r.finite_spec() {
        lemma_mul_parts(c, k);
        lemma_mul_parts(a, b);
        lemma_mul_miss(a, b);
        lemma_mul_miss(c, k);
        let (x, y) = (c.units(), k.units());
        assert(x * y == y * x) by (nonlinear_arith);
        lemma_two_products(a.units(), b.units(), x, y, r.units(), unit());
    }
}

// ---------------------------------------------------------------------------
// Feed-forward part
// ---------------------------------------------------------------------------

/// `d` is the gradient `x` of element `i`, times the factor of the element where some were
/// dropped.
pub open spec fn is_kept_part(mask: Option<Vec<F32>>, x: F32, i: int, d: F32) -> bool {
    match mask {
        Some(k) => {
            let exact = x.units() * k@[i].units();
            d.finite_spec() ==> size(d.units() * unit() - exact) * 0x100_0000 <= size(exact)
                + 0x80_0000 * unit()
        },
        None => d == x,
    }
}

/// `dg` and `du` follow from the gradient `d` of the hidden element of `g` and `u`: `du` is
/// `d` times `g` times its sigmoid, and `dg` is `d` times `u` times the slope.
pub open spec fn is_pair_gradient<M: Math>(
    m: &M,
    g: F32,
    u: F32,
    d: F32,
    dg: F32,
    du: F32,
    s: F32,
    slope: F32,
) -> bool {
    &&& is_sigmoid(m, g, s)
    &&& is_triple(du, g, s, d)
    &&& is_swish_slope(m, g, slope)
    &&& is_triple(dg, d, u, slope)
}

/// Gate and value `i` have the gradients that follow from that of their hidden element.
pub open spec fn shares_gradient<M: Math>(
    m: &M,
    c: FfnCache,
    dh: Seq<F32>,
    dg: Seq<F32>,
    du: Seq<F32>,
    i: int,
) -> bool {
    exists|d: F32, s: F32, slope: F32|
        is_kept_part(c.mask, dh[i], i, d) && #[trigger] is_pair_gradient(
            m,
            c.g@[i],
            c.u@[i],
            d,
            dg[i],
            du[i],
            s,
            slope,
        )
}

/// The first `n` gates and values have the gradients that follow from those of their hidden
/// elements.
pub open spec fn are_pair_gradients<M: Math>(
    m: &M,
    c: FfnCache,
    dh: Seq<F32>,
    dg: Seq<F32>,
    du: Seq<F32>,
    n: int,
) -> bool {
    forall|i: int| 0 <= i < n ==> #[trigger] shares_gradient(m, c, dh, dg, du, i)
}

/// The gradients of a feed-forward part: the hidden elements have those of what they lead
/// to, times their factor where some were dropped; gates and values share them; and the rows
/// take up both.
pub proof fn gates_and_values_share_the_gradient<M: Math>(
    m: &M,
    f: FeedForward,
    c: FfnCache,
    d_f: Seq<F32>,
    seq: int,
    g0: BlockBuf,
    g1: BlockBuf,
    dx: Seq<F32>,
    dg: Seq<F32>,
    du: Seq<F32>,
)
    requires
        ffn_backed_via(m, f, c, d_f, seq, g0, g1, dx, dg, du),
        0 <= seq <= 0x10_0000,
        f.down.out_f <= 0x10_0000,
        f.gate.out_f <= 0x10_0000,
        f.up.out_f <= 0x10_0000,
    ensures
        exists|dh: Seq<F32>, via_gate: Seq<F32>, via_up: Seq<F32>|
            {
                &&& #[trigger] is_input_gradient(f.down, d_f, seq, dh)
                &&& are_pair_gradients(m, c, dh, dg, du, seq * f.gate.out_f)
                &&& #[trigger] is_input_gradient(f.gate, dg, seq, via_gate)
                &&& #[trigger] is_input_gradient(f.up, du, seq, via_up)
                &&& is_row_sum(via_gate, via_up, dx)
            },
        is_layer_gradient(f.down, c.h@, d_f, seq, g0.down, g1.down),
        is_layer_gradient(f.gate, c.xn@, dg, seq, g0.gate, g1.gate),
        is_layer_gradient(f.up, c.xn@, du, seq, g0.up, g1.up),
{
    let dh = affine_dx(f.down, d_f, seq);
    let (via_gate, via_up) = (affine_dx(f.gate, dg, seq), affine_dx(f.up, du, seq));
    lemma_input(f.down, d_f, seq);
    lemma_input(f.gate, dg, seq);
    lemma_input(f.up, du, seq);
    lemma_layer(f.down, c.h@, d_f, seq, g0.down, g1.down);
    lemma_layer(f.gate, c.xn@, dg, seq, g0.gate, g1.gate);
    lemma_layer(f.up, c.xn@, du, seq, g0.up, g1.up);
    lemma_rows_add(via_gate, via_up);
    assert(is_row_sum(via_gate, via_up, dx));
    assert forall|i: int| 0 <= i < seq * f.gate.out_f implies #[trigger] shares_gradient(
        m,
        c,
        dh,
        dg,
        du,
        i,
    ) by {
        let d = unmasked(c.mask, dh, i);
        if c.mask is Some && d.finite_spec() {
            lemma_mul_parts(dh[i], c.mask->0@[i]);
            lemma_mul_miss(dh[i], c.mask->0@[i]);
        }
        assert(is_value_gradient(m, c.g@[i], d, du[i]));
        assert(is_gate_gradient(m, c.g@[i], c.u@[i], d, dg[i]));
        let y = choose|y: F32| #[trigger] is_swish(m, c.g@[i], y) && du[i] == d.mul_spec(y);
        let s = choose|s: F32| #[trigger] is_sigmoid(m, c.g@[i], s) && y == c.g@[i].mul_spec(s);
        let slope = choose|t: F32| #[trigger]
            is_swish_slope(m, c.g@[i], t) && dg[i] == d.mul_spec(c.u@[i]).mul_spec(t);
        lemma_triple(c.g@[i], s, d);
        lemma_triple(d, c.u@[i], slope);
        assert(is_kept_part(c.mask, dh[i], i, d) && is_pair_gradient(
            m,
            c.g@[i],
            c.u@[i],
            d,
            dg[i],
            du[i],
            s,
            slope,
        ));
    }
    assert(are_pair_gradients(m, c, dh, dg, du, seq * f.gate.out_f));
}

// ---------------------------------------------------------------------------
// Attention
// ---------------------------------------------------------------------------

/// The number of head `h` at position `t`.
pub open spec fn unit_at(a: Attention, t: int, h: int) -> int {
    t * a.n_heads + h
}

/// The place of element `c` of head `h` at position `t`.
pub open spec fn query_place(a: Attention, t: int, h: int, c: int) -> int {
    unit_at(a, t, h) * a.head_dim + c
}

/// The place of element `c` of key-value head `kv` at position `s`.
pub open spec fn key_place(a: Attention, s: int, kv: int, c: int) -> int {
    s * (a.n_kv_heads * a.head_dim) + kv * a.head_dim + c
}

/// The gradients of the weights of all heads are products of the gradients of what the heads
/// mixed and the values that they met.
pub open spec fn are_weight_gradients(
    a: Attention,
    v: Seq<F32>,
    dctx: Seq<F32>,
    dp: Seq<Seq<F32>>,
    seq: int,
) -> bool {
    let hd = a.head_dim as int;
    let group = a.n_heads as int / (a.n_kv_heads as int);
    forall|t: int, h: int, j: int|
        0 <= t < seq && 0 <= h < a.n_heads && 0 <= j <= t && (#[trigger] dp[unit_at(
            a,
            t,
            h,
        )][j]).finite_spec() ==> near_dot(
            F32 { bits: 0 },
            dctx,
            unit_at(a, t, h) * hd,
            v,
            j * (a.n_kv_heads * hd) + (h / group) * hd,
            1,
            hd as nat,
            dp[unit_at(a, t, h)][j],
        )
}

/// The gradient `g` of a score follows from those of the weights of its row.
pub open spec fn is_score_of(p: Seq<F32>, dp: Seq<F32>, scale: F32, j: int, g: F32) -> bool {
    exists|mean: int| #[trigger]
        is_mean_under(mean, p, dp) && is_score_gradient_about(g, p[j], dp[j], scale, mean)
}

/// The gradients of all scores follow from those of the weights.
pub open spec fn are_score_gradients(
    probs: Seq<Seq<F32>>,
    dp: Seq<Seq<F32>>,
    scale: F32,
    ds: Seq<Seq<F32>>,
) -> bool {
    forall|u: int, j: int|
        0 <= u < probs.len() && 0 <= j < probs[u].len() && (#[trigger] ds[u][j]).finite_spec()
            ==> is_score_of(probs[u], dp[u], scale, j, ds[u][j])
}

/// The gradients of the queries add up the keys, each times the gradient of its score.
pub open spec fn are_query_gradients(
    a: Attention,
    k: Seq<F32>,
    ds: Seq<Seq<F32>>,
    dq: Seq<F32>,
    seq: int,
) -> bool {
    let hd = a.head_dim as int;
    let group = a.n_heads as int / (a.n_kv_heads as int);
    forall|t: int, h: int, c: int|
        0 <= t < seq && 0 <= h < a.n_heads && 0 <= c < hd && dq[#[trigger] query_place(
            a,
            t,
            h,
            c,
        )].finite_spec() ==> near_dot(
            F32 { bits: 0 },
            ds[unit_at(a, t, h)],
            0,
            k,
            (h / group) * hd + c,
            a.n_kv_heads * hd,
            (t + 1) as nat,
            dq[query_place(a, t, h, c)],
        )
}

/// The gradients of keys or values add up, over the heads that met them, the factors `f`
/// times the elements `x` of the heads.
pub open spec fn are_met_gradients(
    a: Attention,
    f: Seq<Seq<F32>>,
    x: Seq<F32>,
    d: Seq<F32>,
    seq: int,
) -> bool {
    forall|s: int, kv: int, c: int|
        0 <= s < seq && 0 <= kv < a.n_kv_heads && 0 <= c < a.head_dim && d[#[trigger] key_place(
            a,
            s,
            kv,
            c,
        )].finite_spec() ==> {
            let l = met(a, f, x, s, kv, c, f.len());
            near_dot(F32 { bits: 0 }, l.0, 0, l.1, 0, 1, l.0.len(), d[key_place(a, s, kv, c)])
        }
}

/// What lies between the two ends of the backward pass of an attention.
pub struct AttnBack {
    /// The gradients of what the heads mixed.
    pub dctx: Seq<F32>,
    /// Those of the weights and the scores of the heads.
    pub dp: Seq<Seq<F32>>,
    pub ds: Seq<Seq<F32>>,
    pub scale: F32,
    /// Those of queries and keys, turned, and those of the values.
    pub rq: Seq<F32>,
    pub rk: Seq<F32>,
    pub dv: Seq<F32>,
    /// Those of the rows, by way of queries, keys and values.
    pub xq: Seq<F32>,
    pub xk: Seq<F32>,
    pub xv: Seq<F32>,
    pub xqk: Seq<F32>,
}

/// The gradients of an attention, by way of `b` and of the gradients `dq` and `dk` of queries
/// and keys before they were turned.
pub open spec fn is_attention_gradient<M: Math>(
    m: &M,
    a: Attention,
    rope: Rope,
    c: AttnCache,
    d_o: Seq<F32>,
    seq: int,
    g0: BlockBuf,
    g1: BlockBuf,
    dx: Seq<F32>,
    dq: Seq<F32>,
    dk: Seq<F32>,
    b: AttnBack,
) -> bool {
    let probs = rows_view(c.probs@);
    &&& is_input_gradient(a.wo, d_o, seq, b.dctx)
    &&& are_weight_gradients(a, c.v@, b.dctx, b.dp, seq)
    &&& is_inverse_root(b.scale.units(), a.head_dim as int)
    &&& are_score_gradients(probs, b.dp, b.scale, b.ds)
    &&& are_query_gradients(a, c.k@, b.ds, b.rq, seq)
    &&& are_met_gradients(a, b.ds, c.q@, b.rk, seq)
    &&& are_met_gradients(a, probs, b.dctx, b.dv, seq)
    &&& rope.turns_rows(m, b.rq, dq, a.n_heads as int, seq, true)
    &&& rope.turns_rows(m, b.rk, dk, a.n_kv_heads as int, seq, true)
    &&& is_layer_gradient(a.wo, c.ctx@, d_o, seq, g0.wo, g1.wo)
    &&& is_layer_gradient(a.wq, c.xn@, dq, seq, g0.wq, g1.wq)
    &&& is_layer_gradient(a.wk, c.xn@, dk, seq, g0.wk, g1.wk)
    &&& is_layer_gradient(a.wv, c.xn@, b.dv, seq, g0.wv, g1.wv)
    &&& is_input_gradient(a.wq, dq, seq, b.xq)
    &&& is_input_gradient(a.wk, dk, seq, b.xk)
    &&& is_input_gradient(a.wv, b.dv, seq, b.xv)
    &&& is_row_sum(b.xq, b.xk, b.xqk)
    &&& is_row_sum(b.xqk, b.xv, dx)
}

/// The gradients of an attention come from those of its rows by way of what the heads mixed,
/// of their weights and scores, and of queries, keys and values.
pub proof fn attention_gradients_go_back_through_the_heads<M: Math>(
    m: &M,
    a: Attention,
    rope: Rope,
    c: AttnCache,
    d_o: Seq<F32>,
    seq: int,
    g0: BlockBuf,
    g1: BlockBuf,
    dx: Seq<F32>,
    dq: Seq<F32>,
    dk: Seq<F32>,
)
    requires
        attn_backed_via(m, a, rope, c, d_o, seq, g0, g1, dx, dq, dk),
        a.fits(),
        cache_sized(a, c.xn@.len() as int, seq, c),
        0 <= seq <= 0x10_0000,
        seq * a.n_heads <= 0x10_0000,
        a.head_dim <= 0x10_0000,
        a.wo.out_f <= 0x10_0000,
        a.wq.out_f <= 0x10_0000,
        a.wk.out_f <= 0x10_0000,
        a.wv.out_f <= 0x10_0000,
    ensures
        exists|b: AttnBack| #[trigger]
            is_attention_gradient(m, a, rope, c, d_o, seq, g0, g1, dx, dq, dk, b),
{
    let probs = rows_view(c.probs@);
    let dctx = affine_dx(a.wo, d_o, seq);
    let dp = Seq::new(probs.len(), |u: int| weight_gradients(a, c.v@, dctx, u));
    let scale = head_scale_of(a.head_dim as int);
    let ds = all_score_gradients(a, c.v@, probs, dctx);
    let rq = query_gradients(a, c.k@, ds);
    let rk = seen_sums(a, ds, c.q@, seq);
    let dv = seen_sums(a, probs, dctx, seq);
    let xq = affine_dx(a.wq, dq, seq);
    let xk = affine_dx(a.wk, dk, seq);
    let xv = affine_dx(a.wv, dv, seq);
    let xqk = add_rows(xq, xk);
    let n = a.n_heads as int;
    let hd = a.head_dim as int;
    lemma_input(a.wo, d_o, seq);
    lemma_input(a.wq, dq, seq);
    lemma_input(a.wk, dk, seq);
    lemma_input(a.wv, dv, seq);
    lemma_layer(a.wo, c.ctx@, d_o, seq, g0.wo, g1.wo);
    lemma_layer(a.wq, c.xn@, dq, seq, g0.wq, g1.wq);
    lemma_layer(a.wk, c.xn@, dk, seq, g0.wk, g1.wk);
    lemma_layer(a.wv, c.xn@, dv, seq, g0.wv, g1.wv);
    lemma_rows_add(xq, xk);
    lemma_rows_add(xqk, xv);
    scores_spread_alike_in_heads_of_any_size(hd);
    assert(are_weight_gradients(a, c.v@, dctx, dp, seq)) by {
        assert forall|t: int, h: int, j: int|
            0 <= t < seq && 0 <= h < a.n_heads && 0 <= j <= t && (#[trigger] dp[unit_at(
                a,
                t,
                h,
            )][j]).finite_spec() implies near_dot(
            F32 { bits: 0 },
            dctx,
            unit_at(a, t, h) * hd,
            c.v@,
            j * (a.n_kv_heads * hd) + (h / (a.n_heads as int / (a.n_kv_heads as int))) * hd,
            1,
            hd as nat,
            dp[unit_at(a, t, h)][j],
        ) by {
            lemma_unit_below(a, seq, t, h);
            weights_have_the_products_with_values_for_gradients(a, c.v@, dctx, t, h, j);
        }
    }
    assert(are_score_gradients(probs, dp, scale, ds)) by {
        assert forall|u: int, j: int|
            0 <= u < probs.len() && 0 <= j < probs[u].len() && (
            #[trigger] ds[u][j]).finite_spec() implies is_score_of(
            probs[u],
            dp[u],
            scale,
            j,
            ds[u][j],
        ) by {
            assert(probs[u] == c.probs@[u]@);
            assert(u / n < 0x10_0000) by (nonlinear_arith)
                requires
                    0 <= u < 0x10_0000,
                    n >= 1,
            ;
            score_gradients_are_weighed_about_their_mean(probs[u], dp[u], scale, j);
        }
    }
    assert(are_query_gradients(a, c.k@, ds, rq, seq)) by {
        assert forall|t: int, h: int, e: int|
            0 <= t < seq && 0 <= h < a.n_heads && 0 <= e < hd && rq[#[trigger] query_place(
                a,
                t,
                h,
                e,
            )].finite_spec() implies near_dot(
            F32 { bits: 0 },
            ds[unit_at(a, t, h)],
            0,
            c.k@,
            (h / (a.n_heads as int / (a.n_kv_heads as int))) * hd + e,
            a.n_kv_heads * hd,
            (t + 1) as nat,
            rq[query_place(a, t, h, e)],
        ) by {
            lemma_unit_below(a, seq, t, h);
            queries_add_up_the_keys_they_met(a, c.k@, ds, t, h, e);
        }
    }
    lemma_met_all(a, ds, c.q@, seq);
    lemma_met_all(a, probs, dctx, seq);
    let b = AttnBack { dctx, dp, ds, scale, rq, rk, dv, xq, xk, xv, xqk };
    assert(is_attention_gradient(m, a, rope, c, d_o, seq, g0, g1, dx, dq, dk, b));
}

/// Heads are counted position by position.
proof fn lemma_unit_below(a: Attention, seq: int, t: int, h: int)
    requires
        0 <= t < seq,
        0 <= h < a.n_heads,
    ensures
        0 <= unit_at(a, t, h) < seq * a.n_heads,
{
    let n = a.n_heads as int;
    assert(0 <= t * n + h < seq * n) by (nonlinear_arith)
        requires
            0 <= t,
            t + 1 <= seq,
            0 <= h < n,
    ;
}

proof fn lemma_met_all(a: Attention, f: Seq<Seq<F32>>, x: Seq<F32>, seq: int)
    requires
        f.len() <= 0x10_0000,
    ensures
        are_met_gradients(a, f, x, seen_sums(a, f, x, seq), seq),
{
    let d = seen_sums(a, f, x, seq);
    assert forall|s: int, kv: int, c: int|
        0 <= s < seq && 0 <= kv < a.n_kv_heads && 0 <= c < a.head_dim && d[#[trigger] key_place(
            a,
            s,
            kv,
            c,
        )].finite_spec() implies {
        let l = met(a, f, x, s, kv, c, f.len());
        near_dot(F32 { bits: 0 }, l.0, 0, l.1, 0, 1, l.0.len(), d[key_place(a, s, kv, c)])
    } by {
        let (k, hd) = (a.n_kv_heads as int, a.head_dim as int);
        let e = key_place(a, s, kv, c);
        let w = k * hd;
        assert(0 <= kv * hd + c < w) by (nonlinear_arith)
            requires
                w == k * hd,
                0 <= kv,
                kv + 1 <= k,
                0 <= c < hd,
        ;
        assert(0 <= s * w && s * w + w <= seq * w) by (nonlinear_arith)
            requires
                0 <= s,
                s + 1 <= seq,
                w >= 0,
        ;
        assert(d[e] == seen_sum(a, f, x, e, f.len()));
        keys_and_values_add_up_the_heads_that_met_them(a, f, x, s, kv, c);
    }
}

// ---------------------------------------------------------------------------
// Blocks
// ---------------------------------------------------------------------------

/// The gradient of a norm weight grows by the sum over the rows of numbers, each the product
/// of the gradient of the row, its element and its factor.
pub open spec fn is_norm_weight_gradient(
    v: F32,
    init: F32,
    dy: Seq<F32>,
    x: Seq<F32>,
    invs: Seq<F32>,
    i: int,
    d: int,
    s: Seq<F32>,
) -> bool {
    &&& is_added(v, init, s)
    &&& forall|r: int|
        0 <= r < s.len() ==> is_triple(#[trigger] s[r], dy[cell(r, i, d)], x[cell(r, i, d)], invs[r])
}

proof fn lemma_norm_sum(
    init: F32,
    dy: Seq<F32>,
    x: Seq<F32>,
    invs: Seq<F32>,
    i: int,
    d: int,
    r: nat,
) -> (s: Seq<F32>)
    ensures
        s.len() == r,
        norm_sum(init, dy, x, invs, i, d, r) == added(init, s),
        forall|t: int|
            0 <= t < r ==> #[trigger] s[t] == dy[cell(t, i, d)].mul_spec(
                x[cell(t, i, d)],
            ).mul_spec(invs[t]),
    decreases r,
{
    if r == 0 {
        Seq::empty()
    } else {
        let s = lemma_norm_sum(init, dy, x, invs, i, d, (r - 1) as nat);
        let e = dy[cell(r - 1, i, d)].mul_spec(x[cell(r - 1, i, d)]).mul_spec(invs[r - 1]);
        assert(s.push(e).drop_last() =~= s);
        s.push(e)
    }
}

/// The weights of a norm add up, over the rows, the gradients times what was normalized.
pub proof fn norm_weights_add_up_their_rows(
    dy: Seq<F32>,
    x: Seq<F32>,
    invs: Seq<F32>,
    rows: int,
    dw: Seq<F32>,
    i: int,
)
    requires
        0 <= rows <= 0x10_0000,
        0 <= i < dw.len(),
    ensures
        exists|s: Seq<F32>|
            s.len() == rows && #[trigger] is_norm_weight_gradient(
                norm_dw(dy, x, invs, rows, dw)[i],
                dw[i],
                dy,
                x,
                invs,
                i,
                dw.len() as int,
                s,
            ),
{
    let d = dw.len() as int;
    let s = lemma_norm_sum(dw[i], dy, x, invs, i, d, rows as nat);
    numbers_are_added_up(dw[i], s);
    assert forall|r: int| 0 <= r < s.len() implies is_triple(
        #[trigger] s[r],
        dy[cell(r, i, d)],
        x[cell(r, i, d)],
        invs[r],
    ) by {
        lemma_triple(dy[cell(r, i, d)], x[cell(r, i, d)], invs[r]);
    }
    assert(is_norm_weight_gradient(
        norm_dw(dy, x, invs, rows, dw)[i],
        dw[i],
        dy,
        x,
        invs,
        i,
        d,
        s,
    ));
}

/// A block hands the gradient of its rows on past both of its parts, and adds to it what
/// comes back through the norm before each: first through the feed-forward part, then, with
/// that sum, through the attention.
pub proof fn block_gradients_pass_both_sums<M: Math>(
    m: &M,
    b: LlamaBlock,
    rope: Rope,
    c: BlockCache,
    d_out: Seq<F32>,
    seq: int,
    g0: BlockBuf,
    g1: BlockBuf,
    dx: Seq<F32>,
    t: BlockBack,
)
    requires
        block_backed_via(m, b, rope, c, d_out, seq, g0, g1, dx, t),
    ensures
        exists|d_h: Seq<F32>, via_ffn: Seq<F32>, via_attn: Seq<F32>|
            {
                &&& #[trigger] is_row_sum(d_out, via_ffn, d_h)
                &&& #[trigger] is_row_sum(d_h, via_attn, dx)
                &&& via_ffn == norm_rows_dx(t.d_n2, c.h@, b.ffn_norm.weight@, c.n2_inv@, seq)
                &&& via_attn == norm_rows_dx(t.d_n1, c.x@, b.attn_norm.weight@, c.n1_inv@, seq)
                &&& ffn_backed(m, b.ffn, c.ffn, d_out, seq, g0, t.ga, t.d_n2)
                &&& attn_backed(m, b.attn, rope, c.attn, d_h, seq, t.gb, t.gc, t.d_n1)
            },
{
    let via_ffn = norm_rows_dx(t.d_n2, c.h@, b.ffn_norm.weight@, c.n2_inv@, seq);
    let via_attn = norm_rows_dx(t.d_n1, c.x@, b.attn_norm.weight@, c.n1_inv@, seq);
    let d_h = add_rows(d_out, via_ffn);
    lemma_rows_add(d_out, via_ffn);
    lemma_rows_add(d_h, via_attn);
    assert(is_row_sum(d_out, via_ffn, d_h) && is_row_sum(d_h, via_attn, dx));
}

} // verus!
