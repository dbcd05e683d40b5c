//! What a decoder computes, in exact terms up to rounding: affine maps, rotations by
//! angles, norms, residual sums, and the rows of a token through all blocks.
use crate::activation::is_silu;
use crate::attention_laws::{
    attends_by_products, decoder_heads_attend_by_products, query_heads_share_in_groups,
};
use crate::decoder::{
    cached_run_is_a_whole_sequence, decodes, fed_of, picks, Course, Kv, LlamaModel, Sampler,
};
use crate::float::{lemma_round_exists, of_int, F32};
use crate::float_errors::{
    lemma_add_miss, lemma_cancel, lemma_mul_miss, lemma_of_int_miss, lemma_size_product, lemma_unit,
    lemma_value, positive, size, unit,
};
use crate::index::lemma_row;
use crate::layer::Linear;
use crate::llm::{
    add_rows, inv_rms, is_angle, is_gated, is_rope, rope_via, rotated, Attention, FeedForward,
    LlamaBlock, RmsNorm, RopeType,
};
use crate::math::{is_cos, is_inv_freq, is_sin, Math};
use crate::norm_laws::{is_over_root, is_root_mean, rms_norms_divide_by_the_root_mean_square};
use crate::ops::{dot, sum_of};
use crate::rope_turns::lemma_place;
use crate::sum_errors::{
    dot_products_are_sums_of_products, exact_dot, exact_dot_sizes, exact_spread, lemma_add_parts,
    lemma_mul_parts, lemma_sub_parts,
};
use vstd::arithmetic::power2::{lemma_pow2_pos, pow2};
use vstd::prelude::*;

verus! {

// ---------------------------------------------------------------------------
// Affine maps and sums
// ---------------------------------------------------------------------------

/// Element `j` of `y` is the sum of the products of `x` with column `j` of the weight,
/// and the bias, up to rounding. Nothing is said of a quantized weight.
pub open spec fn is_affine(l: Linear, x: Seq<F32>, y: Seq<F32>) -> bool {
    &&& y.len() == l.out_f
    &&& l.quant is None ==> forall|j: int|
        0 <= j < l.out_f && (#[trigger] y[j]).finite_spec() ==> {
            let p = unit();
            let (n, c) = (l.in_f as nat, l.out_f as int);
            let b = l.bias.data@[j].units();
            let w = l.weight.data@;
            size(y[j].units() * p - (exact_dot(x, 0, w, j, c, n) + b * p)) * 0x20_0000 <= (n + 4) * (
            exact_dot_sizes(x, 0, w, j, c, n) + size(b) * p) + n * (0x80_0000 * p)
        }
}

/// `y` is the sum of two rows, element by element, up to rounding.
pub open spec fn is_row_sum(a: Seq<F32>, b: Seq<F32>, y: Seq<F32>) -> bool {
    &&& y.len() == a.len()
    &&& forall|i: int|
        0 <= i < a.len() && (#[trigger] y[i]).finite_spec() ==> size(
            y[i].units() - (a[i].units() + b[i].units()),
        ) * 0x100_0000 <= size(a[i].units() + b[i].units())
}

#[verifier::rlimit(60)]
#[verifier::spinoff_prover]
proof fn lemma_affine(y: int, d: int, b: int, x: int, a: int, n: int, p: int)
    requires
        p >= 0x100_0000,
        0 <= n <= 0x10_0000,
        size(x) <= a,
        size(d * p - x) * 0x40_0000 <= n * a + n * (0x40_0000 * p),
        size(y - (d + b)) * 0x100_0000 <= size(d + b),
    ensures
        size(y * p - (x + b * p)) * 0x20_0000 <= (n + 4) * (a + size(b) * p) + n * (0x80_0000 * p),
{
    let (dp, bp, yp, na, np) = (d * p, b * p, y * p, n * a, n * p);
    let sbp = size(b) * p;
    lemma_size_product(b, p);
    let nsbp = n * sbp;
    assert(n * (0x40_0000 * p) == 0x40_0000 * np && n * (0x80_0000 * p) == 0x80_0000 * np && (n + 4)
        * (a + sbp) == na + nsbp + 4 * a + 4 * sbp) by (nonlinear_arith)
        requires
            np == n * p,
            na == n * a,
            nsbp == n * sbp,
    ;
    assert(0 <= na <= 0x10_0000 * a && 0 <= np && nsbp >= 0) by (nonlinear_arith)
        requires
            na == n * a,
            0 <= n <= 0x10_0000,
            a >= 0,
            np == n * p,
            p > 0,
            nsbp == n * sbp,
            sbp >= 0,
    ;
    let g = y - (d + b);
    lemma_size_product(g, p);
    lemma_size_product(d + b, p);
    assert((d + b) * p == dp + bp && g * p == yp - dp - bp) by (nonlinear_arith)
        requires
            dp == d * p,
            bp == b * p,
            yp == y * p,
            g == y - (d + b),
    ;
    let (sg, st) = (size(g), size(d + b));
    assert((sg * p) * 0x100_0000 <= st * p) by (nonlinear_arith)
        requires
            sg * 0x100_0000 <= st,
            p > 0,
    ;
}

/// A layer maps a row by its weight and its bias, up to rounding.
pub proof fn layers_map_rows_by_weight_and_bias(l: Linear, x: Seq<F32>)
    requires
        l.in_f <= 0x10_0000,
    ensures
        is_affine(l, x, l.image(x)),
{
    lemma_unit();
    let p = unit();
    let y = l.image(x);
    let zero = F32 { bits: 0 };
    if l.quant is None {
        let (n, c) = (l.in_f as nat, l.out_f as int);
        let w = l.weight.data@;
        assert forall|j: int| 0 <= j < l.out_f && (#[trigger] y[j]).finite_spec() implies {
            let b = l.bias.data@[j].units();
            size(y[j].units() * p - (exact_dot(x, 0, w, j, c, n) + b * p)) * 0x20_0000 <= (n + 4) * (
            exact_dot_sizes(x, 0, w, j, c, n) + size(b) * p) + n * (0x80_0000 * p)
        } by {
            let d = dot(zero, x, 0, w, j, c, n);
            let b = l.bias.data@[j];
            assert(y[j] == d.add_spec(b));
            lemma_add_parts(d, b);
            dot_products_are_sums_of_products(zero, x, 0, w, j, c, n);
            lemma_value(zero);
            assert(0 * p == 0) by (nonlinear_arith);
            lemma_add_miss(d, b);
            lemma_affine(
                y[j].units(),
                d.units(),
                b.units(),
                exact_dot(x, 0, w, j, c, n),
                exact_dot_sizes(x, 0, w, j, c, n),
                n as int,
                p,
            );
        }
    }
}

/// Rows are added element by element, up to rounding.
pub(crate) proof fn lemma_rows_add(a: Seq<F32>, b: Seq<F32>)
    ensures
        is_row_sum(a, b, add_rows(a, b)),
{
    let y = add_rows(a, b);
    assert forall|i: int| 0 <= i < a.len() && (#[trigger] y[i]).finite_spec() implies size(
        y[i].units() - (a[i].units() + b[i].units()),
    ) * 0x100_0000 <= size(a[i].units() + b[i].units()) by {
        lemma_add_parts(a[i], b[i]);
        lemma_add_miss(a[i], b[i]);
    }
}

// ---------------------------------------------------------------------------
// Rotations
// ---------------------------------------------------------------------------

/// An angle is the position times the frequency, up to rounding.
pub open spec fn is_position_angle(theta: F32, pos: int, f: F32) -> bool {
    theta.finite_spec() ==> size(theta.units() - pos * f.units()) * 0x40_0000 <= pos * size(f.units())
        + 0x40_0000
}

/// The channels of pair `i` of head `h`.
pub open spec fn pair_places(
    head_dim: int,
    rope_dim: int,
    rope_type: RopeType,
    h: int,
    i: int,
) -> (int, int) {
    match rope_type {
        RopeType::Norm => (h * head_dim + 2 * i, h * head_dim + 2 * i + 1),
        RopeType::Neox => (h * head_dim + i, h * head_dim + i + rope_dim / 2),
    }
}

/// A sum of two products, up to rounding.
pub open spec fn is_cross(a: F32, c: F32, b: F32, s: F32, r: F32) -> bool {
    let (x, y) = (a.units() * c.units(), b.units() * s.units());
    r.finite_spec() ==> size(r.units() * unit() - (x + y)) * 0x40_0000 <= 2 * size(x) + 2 * size(y)
        + 0x80_0000 * unit()
}

/// Pair `(a, b)` is turned counterclockwise by the angle of frequency `i` at a
/// position: it becomes `(a cos - b sin, a sin + b cos)`, up to rounding.
pub open spec fn is_turned_pair<M: Math>(
    m: &M,
    base: F32,
    i: int,
    rope_dim: usize,
    pos: int,
    a: F32,
    b: F32,
    y: F32,
    z: F32,
) -> bool {
    exists|f: F32, theta: F32, s: F32, c: F32|
        {
            &&& #[trigger] is_inv_freq(m, base, i as usize, rope_dim, f)
            &&& is_position_angle(theta, pos, f)
            &&& #[trigger] is_sin(m, theta, s)
            &&& #[trigger] is_cos(m, theta, c)
            &&& is_cross(a, c, b, s.negated(), y)
            &&& is_cross(a, s, b, c, z)
        }
}

/// Every pair of channels of every head is turned by the angle of its frequency at
/// position `pos`, and the channels from `rope_dim` on stay.
pub open spec fn is_turned<M: Math>(
    m: &M,
    x: Seq<F32>,
    y: Seq<F32>,
    n_heads: int,
    head_dim: int,
    rope_dim: usize,
    pos: int,
    base: F32,
    rope_type: RopeType,
) -> bool {
    &&& y.len() == x.len()
    &&& forall|h: int, i: int|
        0 <= h < n_heads && 0 <= i < rope_dim as int / 2 ==> {
            let (j, k) = #[trigger] pair_places(head_dim, rope_dim as int, rope_type, h, i);
            is_turned_pair(m, base, i, rope_dim, pos, x[j], x[k], y[j], y[k])
        }
    &&& forall|j: int|
        0 <= j < x.len() && j % head_dim >= rope_dim ==> #[trigger] y[j] == x[j]
}

#[verifier::rlimit(60)]
#[verifier::spinoff_prover]
proof fn lemma_cross(a: F32, c: F32, b: F32, s: F32)
    ensures
        is_cross(a, c, b, s, a.mul_spec(c).add_spec(b.mul_spec(s))),
{
    lemma_unit();
    let (u, v) = (a.mul_spec(c), b.mul_spec(s));
    let r = u.add_spec(v);
    if r.finite_spec() {
        lemma_add_parts(u, v);
        lemma_mul_parts(a, c);
        lemma_mul_parts(b, s);
        lemma_mul_miss(a, c);
        lemma_mul_miss(b, s);
        lemma_add_miss(u, v);
        let p = unit();
        let (x, y) = (a.units() * c.units(), b.units() * s.units());
        let (up, vp, rp) = (u.units() * p, v.units() * p, r.units() * p);
        let t = u.units() + v.units();
        let g = r.units() - t;
        lemma_size_product(g, p);
        lemma_size_product(t, p);
        assert(t * p == up + vp && g * p == rp - up - vp) by (nonlinear_arith)
            requires
                t == u.units() + v.units(),
                up == u.units() * p,
                vp == v.units() * p,
                rp == r.units() * p,
                g == r.units() - t,
        ;
        let (sg, st) = (size(g), size(t));
        assert((sg * p) * 0x100_0000 <= st * p) by (nonlinear_arith)
            requires
                sg * 0x100_0000 <= st,
                p > 0,
        ;
    }
}

/// A product with a sign turned.
proof fn lemma_minus(a: F32, c: F32, b: F32, s: F32)
    ensures
        is_cross(a, c, b, s.negated(), a.mul_spec(c).sub_spec(b.mul_spec(s))),
{
    let r = a.mul_spec(c).sub_spec(b.mul_spec(s));
    if r.finite_spec() {
        lemma_sub_parts(a.mul_spec(c), b.mul_spec(s));
        lemma_mul_parts(b, s);
        assert(b.mul_spec(s).negated() == b.mul_spec(s.negated())) by {
            reveal(F32::mul_spec);
            lemma_value(b);
            lemma_value(s);
            lemma_pow2_pos(149);
            let num = b.mag() * s.mag();
            assert(num >= 0) by (nonlinear_arith)
                requires
                    num == b.mag() * s.mag(),
                    b.mag() >= 0,
                    s.mag() >= 0,
            ;
            lemma_round_exists(num, pow2(149) as int);
        }
        lemma_cross(a, c, b, s.negated());
    }
}

/// The angle of a position.
#[verifier::rlimit(60)]
#[verifier::spinoff_prover]
proof fn lemma_position_angle(pos: int, f: F32)
    requires
        0 <= pos < 0x1_0000_0000_0000_0000,
    ensures
        is_position_angle(of_int(pos).mul_spec(f), pos, f),
{
    lemma_unit();
    let theta = of_int(pos).mul_spec(f);
    if theta.finite_spec() {
        lemma_of_int_miss(pos);
        lemma_mul_parts(of_int(pos), f);
        lemma_mul_miss(of_int(pos), f);
        let p = unit();
        let (n, x, t) = (of_int(pos).units(), f.units(), theta.units());
        let g = n - pos * p;
        lemma_size_product(g, x);
        let sx = size(x);
        let psx = pos * sx;
        let psxp = psx * p;
        assert((size(g) * sx) * 0x100_0000 <= psxp) by (nonlinear_arith)
            requires
                size(g) * 0x100_0000 <= pos * p,
                psxp == psx * p,
                psx == pos * sx,
                sx >= 0,
        ;
        let px = pos * x;
        let pxp = px * p;
        assert(g * x == n * x - pxp) by (nonlinear_arith)
            requires
                g == n - pos * p,
                pxp == px * p,
                px == pos * x,
        ;
        lemma_size_product(pos, x);
        lemma_size_product(px, p);
        let gap = t - px;
        lemma_size_product(gap, p);
        assert(gap * p == t * p - pxp) by (nonlinear_arith)
            requires
                gap == t - px,
                pxp == px * p,
        ;
        let sgap = size(gap);
        assert((sgap * p) * 0x40_0000 <= psxp + 0x40_0000 * p);
        let most = psx + 0x40_0000;
        assert(most * p == psxp + 0x40_0000 * p) by (nonlinear_arith)
            requires
                most == psx + 0x40_0000,
                psxp == psx * p,
        ;
        assert((sgap * 0x40_0000) * p == (sgap * p) * 0x40_0000) by (nonlinear_arith);
        lemma_cancel(sgap * 0x40_0000, most, p);
    }
}

/// Rotary positions turn every pair of channels by the angle of its frequency at the
/// position, and leave the other channels.
#[verifier::rlimit(60)]
#[verifier::spinoff_prover]
pub proof fn pairs_turn_by_the_angles_of_their_position<M: Math>(
    m: &M,
    x: Seq<F32>,
    y: Seq<F32>,
    n_heads: int,
    head_dim: int,
    rope_dim: usize,
    pos: usize,
    base: F32,
    rope_type: RopeType,
)
    requires
        is_rope(m, x, y, n_heads, head_dim, rope_dim, pos, base, rope_type),
        x.len() == n_heads * head_dim,
        n_heads >= 0,
        rope_dim <= head_dim,
        rope_dim % 2 == 0,
    ensures
        is_turned(m, x, y, n_heads, head_dim, rope_dim, pos as int, base, rope_type),
{
    let (sines, cosines) = choose|sines: Seq<F32>, cosines: Seq<F32>|
        rope_via(m, x, y, sines, cosines, n_heads, head_dim, rope_dim, pos, base, rope_type);
    let half = rope_dim as int / 2;
    let d = rope_dim as int;
    assert forall|h: int, i: int| 0 <= h < n_heads && 0 <= i < half implies {
        let (j, k) = #[trigger] pair_places(head_dim, d, rope_type, h, i);
        is_turned_pair(m, base, i, rope_dim, pos as int, x[j], x[k], y[j], y[k])
    } by {
        let (j, k) = pair_places(head_dim, d, rope_type, h, i);
        let u = h * half + i;
        assert(0 <= u < n_heads * half && u % half == i) by (nonlinear_arith)
            requires
                u == h * half + i,
                0 <= i < half,
                0 <= h < n_heads,
        ;
        assert(is_angle(m, base, u % half, rope_dim, pos, sines[u], cosines[u]));
        let (s, c) = (sines[u], cosines[u]);
        let f = choose|f: F32|
            #[trigger] is_inv_freq(m, base, i as usize, rope_dim, f) && is_sin(
                m,
                of_int(pos as int).mul_spec(f),
                s,
            ) && is_cos(m, of_int(pos as int).mul_spec(f), c);
        let theta = of_int(pos as int).mul_spec(f);
        lemma_position_angle(pos as int, f);
        let (e, g) = match rope_type {
            RopeType::Norm => (2 * i, 2 * i + 1),
            RopeType::Neox => (i, i + half),
        };
        lemma_place(h, e, head_dim);
        lemma_place(h, g, head_dim);
        lemma_row(h, n_heads, head_dim);
        assert(y[j] == rotated(x, sines, cosines, head_dim, d, rope_type, j));
        assert(y[k] == rotated(x, sines, cosines, head_dim, d, rope_type, k));
        assert(y[j] == x[j].mul_spec(c).sub_spec(x[k].mul_spec(s)));
        assert(y[k] == x[j].mul_spec(s).add_spec(x[k].mul_spec(c)));
        lemma_minus(x[j], c, x[k], s);
        lemma_cross(x[j], s, x[k], c);
    }
}

// ---------------------------------------------------------------------------
// Norms
// ---------------------------------------------------------------------------

/// Row `z` is row `x` over its root mean square, times the weights, up to rounding,
/// wherever that is finite.
pub open spec fn is_rms_normed(n: RmsNorm, x: Seq<F32>, z: Seq<F32>) -> bool {
    &&& z.len() == x.len()
    &&& x.len() > 0 && positive(n.eps) && sum_of(x.map_values(|v: F32| v.mul_spec(v))).div_spec(
        of_int(x.len() as int),
    ).add_spec(n.eps).finite_spec() && inv_rms(x, n.eps).finite_spec() ==> exists|s: int|
        {
            &&& #[trigger] is_root_mean(
                s,
                exact_spread(x, F32 { bits: 0 }),
                n.eps.units(),
                x.len() as int,
            )
            &&& forall|i: int|
                0 <= i < x.len() && (#[trigger] z[i]).finite_spec() ==> is_over_root(
                    x[i],
                    s,
                    n.weight@[i],
                    z[i],
                )
        }
}

/// A norm divides a row by its root mean square.
pub proof fn norms_divide_by_the_root_mean_square(n: RmsNorm, x: Seq<F32>)
    requires
        x.len() <= 0x10_0000,
    ensures
        is_rms_normed(n, x, n.image(x)),
{
    if x.len() > 0 && positive(n.eps) && sum_of(x.map_values(|v: F32| v.mul_spec(v))).div_spec(
        of_int(x.len() as int),
    ).add_spec(n.eps).finite_spec() && inv_rms(x, n.eps).finite_spec() {
        let s = rms_norms_divide_by_the_root_mean_square(x, n.weight@, n.eps);
        assert(is_root_mean(s, exact_spread(x, F32 { bits: 0 }), n.eps.units(), x.len() as int));
    }
}

// ---------------------------------------------------------------------------
// Attention, blocks and models
// ---------------------------------------------------------------------------

/// No part of an attention layer is larger than what the laws are stated for.
pub open spec fn is_modest(a: Attention) -> bool {
    &&& a.fits()
    &&& a.wq.in_f <= 0x10_0000
    &&& a.wk.in_f <= 0x10_0000
    &&& a.wv.in_f <= 0x10_0000
    &&& a.wo.in_f <= 0x10_0000
    &&& a.head_dim <= 0x10_0000
}

/// The group of keys and values of query head `h`, and the rows that its context is
/// made of.
pub open spec fn is_group<M: Math>(
    m: &M,
    a: Attention,
    q: Seq<F32>,
    kc: Seq<F32>,
    vc: Seq<F32>,
    len: int,
    ctx: Seq<F32>,
    h: int,
) -> bool {
    let hd = a.head_dim as int;
    exists|g: int, w: Seq<F32>|
        {
            &&& g * a.n_heads <= h * a.n_kv_heads < (g + 1) * a.n_heads
            &&& #[trigger] attends_by_products(
                m,
                q,
                h * hd,
                kc,
                vc,
                g * hd,
                a.n_kv_heads * hd,
                hd,
                len,
                len,
                w,
                ctx.subrange(h * hd, h * hd + hd),
            )
        }
}

/// One token through attention: its query and key are affine images of its row, turned
/// by its position; its value is an affine image; key and value join those before; and
/// the contexts of all heads, over all positions, are mapped to the output.
pub open spec fn is_attention_step<M: Math>(
    m: &M,
    a: Attention,
    x: Seq<F32>,
    pos: int,
    k0: Seq<F32>,
    v0: Seq<F32>,
    k1: Seq<F32>,
    v1: Seq<F32>,
    y: Seq<F32>,
    uq: Seq<F32>,
    uk: Seq<F32>,
    q: Seq<F32>,
    k: Seq<F32>,
    v: Seq<F32>,
    ctx: Seq<F32>,
) -> bool {
    let hd = a.head_dim as int;
    let (b, t) = (a.rope_base, a.rope_type);
    &&& is_affine(a.wq, x, uq)
    &&& is_affine(a.wk, x, uk)
    &&& is_affine(a.wv, x, v)
    &&& is_turned(m, uq, q, a.n_heads as int, hd, a.rope_dim, pos, b, t)
    &&& is_turned(m, uk, k, a.n_kv_heads as int, hd, a.rope_dim, pos, b, t)
    &&& k1 == k0 + k
    &&& v1 == v0 + v
    &&& ctx.len() == a.n_heads * hd
    &&& forall|h: int|
        0 <= h < a.n_heads ==> #[trigger] is_group(
            m,
            a,
            q,
            k1,
            v1,
            k1.len() as int / (a.n_kv_heads * hd),
            ctx,
            h,
        )
    &&& is_affine(a.wo, ctx, y)
}

/// A step of attention is one of `is_attention_step`.
pub proof fn attention_steps_turn_and_mix<M: Math>(
    m: &M,
    a: Attention,
    x: Seq<F32>,
    pos: usize,
    k0: Seq<F32>,
    v0: Seq<F32>,
    k1: Seq<F32>,
    v1: Seq<F32>,
    y: Seq<F32>,
)
    requires
        is_modest(a),
        a.steps(m, x, pos, k0, v0, k1, v1, y),
        0 <= k1.len() as int / (a.n_kv_heads * a.head_dim),
        k1.len() as int / (a.n_kv_heads * a.head_dim) <= 0x10_0000,
    ensures
        exists|
            uq: Seq<F32>,
            uk: Seq<F32>,
            q: Seq<F32>,
            k: Seq<F32>,
            v: Seq<F32>,
            ctx: Seq<F32>,
        | #[trigger]
            is_attention_step(m, a, x, pos as int, k0, v0, k1, v1, y, uq, uk, q, k, v, ctx),
{
    let (q, k, v, ctx) = choose|q: Seq<F32>, k: Seq<F32>, v: Seq<F32>, ctx: Seq<F32>| #[trigger]
        a.steps_via(m, x, pos, k0, v0, k1, v1, y, q, k, v, ctx);
    let (uq, uk) = (a.wq.image(x), a.wk.image(x));
    let hd = a.head_dim as int;
    layers_map_rows_by_weight_and_bias(a.wq, x);
    layers_map_rows_by_weight_and_bias(a.wk, x);
    layers_map_rows_by_weight_and_bias(a.wv, x);
    layers_map_rows_by_weight_and_bias(a.wo, ctx);
    pairs_turn_by_the_angles_of_their_position(
        m,
        uq,
        q,
        a.n_heads as int,
        hd,
        a.rope_dim,
        pos,
        a.rope_base,
        a.rope_type,
    );
    pairs_turn_by_the_angles_of_their_position(
        m,
        uk,
        k,
        a.n_kv_heads as int,
        hd,
        a.rope_dim,
        pos,
        a.rope_base,
        a.rope_type,
    );
    let len = k1.len() as int / (a.n_kv_heads * hd);
    assert forall|h: int| 0 <= h < a.n_heads implies #[trigger] is_group(
        m,
        a,
        q,
        k1,
        v1,
        len,
        ctx,
        h,
    ) by {
        assert(a.head_attends(m, q, k1, v1, len, ctx, h));
        decoder_heads_attend_by_products(m, a, q, k1, v1, len, ctx, h);
        query_heads_share_in_groups(a, h);
    }
    assert(is_attention_step(m, a, x, pos as int, k0, v0, k1, v1, y, uq, uk, q, k, v, ctx));
}

/// One row through a gated feed-forward part: each hidden number is the SiLU of the
/// gate's image, times the image of the other projection.
pub open spec fn is_gated_row<M: Math>(
    m: &M,
    f: FeedForward,
    x: Seq<F32>,
    y: Seq<F32>,
    g: Seq<F32>,
    u: Seq<F32>,
    s: Seq<F32>,
    h: Seq<F32>,
) -> bool {
    &&& is_affine(f.gate, x, g)
    &&& is_affine(f.up, x, u)
    &&& s.len() == g.len()
    &&& h.len() == g.len()
    &&& forall|i: int| 0 <= i < g.len() ==> is_silu(m, g[i], #[trigger] s[i])
    &&& forall|i: int|
        0 <= i < g.len() && (#[trigger] h[i]).finite_spec() ==> size(
            h[i].units() * unit() - s[i].units() * u[i].units(),
        ) * 0x100_0000 <= size(s[i].units() * u[i].units()) + 0x80_0000 * unit()
    &&& is_affine(f.down, h, y)
}

/// A gated feed-forward part maps rows as `is_gated_row` says.
pub proof fn feed_forward_rows_are_gated<M: Math>(m: &M, f: FeedForward, x: Seq<F32>, y: Seq<F32>)
    requires
        f.fits(),
        f.gates(m, x, y),
        f.gate.in_f <= 0x10_0000,
        f.down.in_f <= 0x10_0000,
    ensures
        exists|g: Seq<F32>, u: Seq<F32>, s: Seq<F32>, h: Seq<F32>| #[trigger]
            is_gated_row(m, f, x, y, g, u, s, h),
{
    let h = choose|h: Seq<F32>| #[trigger] f.gates_via(m, x, h, y);
    let (g, u) = (f.gate.image(x), f.up.image(x));
    layers_map_rows_by_weight_and_bias(f.gate, x);
    layers_map_rows_by_weight_and_bias(f.up, x);
    layers_map_rows_by_weight_and_bias(f.down, h);
    let s = Seq::new(
        g.len(),
        |i: int| choose|s: F32| #[trigger] is_silu(m, g[i], s) && h[i] == s.mul_spec(u[i]),
    );
    assert forall|i: int| 0 <= i < g.len() implies is_silu(m, g[i], #[trigger] s[i]) && h[i]
        == s[i].mul_spec(u[i]) by {
        assert(is_gated(m, g[i], u[i], h[i]));
    }
    assert forall|i: int| 0 <= i < g.len() && (#[trigger] h[i]).finite_spec() implies size(
        h[i].units() * unit() - s[i].units() * u[i].units(),
    ) * 0x100_0000 <= size(s[i].units() * u[i].units()) + 0x80_0000 * unit() by {
        assert(is_silu(m, g[i], s[i]));
        lemma_mul_parts(s[i], u[i]);
        lemma_mul_miss(s[i], u[i]);
    }
    assert(is_gated_row(m, f, x, y, g, u, s, h));
}

/// One token through a block: attention on the normed row is added to the row, and
/// the feed-forward part on the normed sum to the sum.
pub open spec fn is_block_step<M: Math>(
    m: &M,
    b: LlamaBlock,
    x: Seq<F32>,
    pos: usize,
    k0: Seq<F32>,
    v0: Seq<F32>,
    k1: Seq<F32>,
    v1: Seq<F32>,
    y: Seq<F32>,
    z1: Seq<F32>,
    a: Seq<F32>,
    mid: Seq<F32>,
    z2: Seq<F32>,
    f: Seq<F32>,
) -> bool {
    &&& is_rms_normed(b.attn_norm, x, z1)
    &&& b.attn.steps(m, z1, pos, k0, v0, k1, v1, a)
    &&& is_row_sum(x, a, mid)
    &&& is_rms_normed(b.ffn_norm, mid, z2)
    &&& b.ffn.gates(m, z2, f)
    &&& is_row_sum(mid, f, y)
}

/// A step of a block adds to its row what attention and the feed-forward part make of
/// it.
pub proof fn blocks_add_to_their_rows<M: Math>(
    m: &M,
    b: LlamaBlock,
    x: Seq<F32>,
    pos: usize,
    k0: Seq<F32>,
    v0: Seq<F32>,
    k1: Seq<F32>,
    v1: Seq<F32>,
    y: Seq<F32>,
)
    requires
        x.len() <= 0x10_0000,
        b.steps(m, x, pos, k0, v0, k1, v1, y),
    ensures
        exists|z1: Seq<F32>, a: Seq<F32>, mid: Seq<F32>, z2: Seq<F32>, f: Seq<F32>| #[trigger]
            is_block_step(m, b, x, pos, k0, v0, k1, v1, y, z1, a, mid, z2, f),
{
    let (a, f) = choose|a: Seq<F32>, f: Seq<F32>|
        #[trigger] b.steps_via(m, x, pos, k0, v0, k1, v1, y, a, f);
    let mid = add_rows(x, a);
    let (z1, z2) = (b.attn_norm.image(x), b.ffn_norm.image(mid));
    norms_divide_by_the_root_mean_square(b.attn_norm, x);
    norms_divide_by_the_root_mean_square(b.ffn_norm, mid);
    lemma_rows_add(x, a);
    lemma_rows_add(mid, f);
    assert(is_block_step(m, b, x, pos, k0, v0, k1, v1, y, z1, a, mid, z2, f));
}

/// One token through a model: its row of the table goes through the blocks in order,
/// each at the position of the token, and the normed last row is mapped to the scores.
pub open spec fn is_model_step<M: Math>(
    m: &M,
    model: LlamaModel,
    token: int,
    pos: usize,
    kv0: Seq<Kv>,
    kv1: Seq<Kv>,
    xs: Seq<Seq<F32>>,
    z: Seq<F32>,
    logits: Seq<F32>,
) -> bool {
    let n = model.blocks@.len() as int;
    let d = model.cfg.model_dim as int;
    &&& xs.len() == n + 1
    &&& xs[0].len() == d
    &&& forall|i: int| 0 <= i < d ==> #[trigger] xs[0][i] == model.tok_emb@[token * d + i]
    &&& forall|l: int|
        0 <= l < n ==> (#[trigger] model.blocks@[l]).steps(
            m,
            xs[l],
            pos,
            kv0[l].0,
            kv0[l].1,
            kv1[l].0,
            kv1[l].1,
            xs[l + 1],
        )
    &&& is_rms_normed(model.final_norm, xs[n], z)
    &&& is_affine(model.lm_head, z, logits)
}

/// A step of a model takes the row of the token through all blocks to the scores.
pub proof fn models_take_rows_through_all_blocks<M: Math>(
    m: &M,
    model: LlamaModel,
    token: usize,
    pos: usize,
    kv0: Seq<Kv>,
    kv1: Seq<Kv>,
    logits: Seq<F32>,
)
    requires
        model.fits(),
        model.steps(m, token, pos, kv0, kv1, logits),
        model.cfg.model_dim <= 0x10_0000,
    ensures
        exists|xs: Seq<Seq<F32>>, z: Seq<F32>| #[trigger]
            is_model_step(m, model, token as int, pos, kv0, kv1, xs, z, logits),
{
    let xs = choose|xs: Seq<Seq<F32>>| #[trigger]
        model.steps_via(m, token, pos, kv0, kv1, xs, logits);
    let n = model.blocks@.len() as int;
    let d = model.cfg.model_dim as int;
    let z = model.final_norm.image(xs[n]);
    lemma_row(token as int, model.cfg.vocab_size as int, d);
    assert forall|l: int| 0 <= l < n implies (#[trigger] model.blocks@[l]).steps(
        m,
        xs[l],
        pos,
        kv0[l].0,
        kv0[l].1,
        kv1[l].0,
        kv1[l].1,
        xs[l + 1],
    ) by {
        assert(model.layer_steps(m, pos, kv0, kv1, xs, l));
    }
    lemma_row_lengths(m, model, token, pos, kv0, kv1, xs, logits, n);
    norms_divide_by_the_root_mean_square(model.final_norm, xs[n]);
    layers_map_rows_by_weight_and_bias(model.lm_head, z);
    assert(is_model_step(m, model, token as int, pos, kv0, kv1, xs, z, logits));
}

/// Rows keep their length through the blocks.
proof fn lemma_row_lengths<M: Math>(
    m: &M,
    model: LlamaModel,
    token: usize,
    pos: usize,
    kv0: Seq<Kv>,
    kv1: Seq<Kv>,
    xs: Seq<Seq<F32>>,
    logits: Seq<F32>,
    l: int,
)
    requires
        model.fits(),
        model.steps_via(m, token, pos, kv0, kv1, xs, logits),
        0 <= l <= model.blocks@.len(),
    ensures
        xs[l].len() == model.cfg.model_dim,
    decreases l,
{
    if l == 0 {
        lemma_row(token as int, model.cfg.vocab_size as int, model.cfg.model_dim as int);
    } else {
        lemma_row_lengths(m, model, token, pos, kv0, kv1, xs, logits, l - 1);
        assert(model.layer_steps(m, pos, kv0, kv1, xs, l - 1));
        let b = model.blocks@[l - 1];
        let (x, y) = (xs[l - 1], xs[l]);
        let (a, f) = choose|a: Seq<F32>, f: Seq<F32>| #[trigger]
            b.steps_via(
                m,
                x,
                pos,
                kv0[l - 1].0,
                kv0[l - 1].1,
                kv1[l - 1].0,
                kv1[l - 1].1,
                y,
                a,
                f,
            );
        assert(y == add_rows(add_rows(x, a), f));
    }
}

/// Every token of a generation is picked for the scores that the model gives at the end
/// of the prompt and the tokens before it, read as a whole; the generator goes from pick to
/// pick.
pub proof fn new_tokens_follow_the_text_before_them<M: Math, S: Sampler>(
    model: LlamaModel,
    m: &M,
    s: &S,
    prompt: Seq<usize>,
    out: Seq<usize>,
    eos: Option<usize>,
    c: Course,
    i: int,
)
    requires
        model.fits(),
        prompt.len() > 0,
        model.continues(m, s, prompt, out, fed_of(out, eos), c),
        prompt.len() + out.len() <= usize::MAX,
        0 <= i < out.len(),
    ensures
        exists|rows: Seq<Seq<F32>>| #[trigger]
            model.reads(m, prompt + out.take(i), rows) && picks(
                s,
                rows.last(),
                prompt + out.take(i),
                c.seeds[i],
                out[i],
                c.seeds[i + 1],
            ),
{
    let fed = fed_of(out, eos);
    let all = prompt + out.subrange(0, fed);
    let part = prompt + out.take(i);
    let n = part.len() as int;
    let states = c.states.subrange(0, n + 1);
    let rows = c.rows.subrange(0, n);
    assert(part =~= all.subrange(0, n));
    assert forall|t: int| 0 <= t < part.len() implies #[trigger] model.steps(
        m,
        part[t],
        t as usize,
        states[t],
        states[t + 1],
        rows[t],
    ) by {
        assert(model.steps(m, all[t], t as usize, c.states[t], c.states[t + 1], c.rows[t]));
    }
    assert(decodes(model, m, part, states, rows));
    cached_run_is_a_whole_sequence(model, m, part, states, rows);
    assert(model.picked(s, prompt, out, c, i));
    assert(out.take(i) =~= out.subrange(0, i));
}

} // verus!
