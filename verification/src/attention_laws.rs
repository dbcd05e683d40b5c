//! What attention is for: scores are dot products of queries and keys over the root
//! of the head size, and contexts are the values, weighted by the softmax of the
//! scores; all up to rounding.
use crate::attention::{head_scale_of, mix_of, scores_of, MASKED_BITS};
use crate::float::F32;
use crate::float_errors::{
    lemma_mul_miss, lemma_size_product, lemma_unit, lemma_value, size, unit,
};
use crate::head_scales::scores_spread_alike_in_heads_of_any_size;
use crate::llm::Attention;
use crate::math::Math;
use crate::ops::{dot, is_softmax};
use crate::sum_errors::{
    dot_products_are_sums_of_products, exact_dot, exact_dot_sizes, lemma_mul_parts, near_dot,
};
use crate::train_attention::unit_attends;
use crate::transformer::{head_part, BlockTrace, KvCache, TransformerBlock};
use vstd::prelude::*;

verus! {

/// An integer whose square, times `hd`, is the square of one, up to a millionth.
pub open spec fn is_inverse_root(c: int, hd: int) -> bool {
    c > 0 && size((c * c) * hd - unit() * unit()) * 0x10_0000 <= unit() * unit()
}

/// A score is the dot product of `hd` numbers of `q` and `k`, over the root of `hd`,
/// up to rounding.
pub open spec fn is_scaled_product(q: Seq<F32>, q0: int, k: Seq<F32>, k0: int, hd: int, s: F32) -> bool {
    let p = unit();
    let x = exact_dot(q, q0, k, k0, 1, hd as nat);
    let a = exact_dot_sizes(q, q0, k, k0, 1, hd as nat);
    exists|c: int| #[trigger]
        is_inverse_root(c, hd) && size(s.units() * (p * p) - x * c) * 0x40_0000 <= c * ((hd + 1) * (a
            + 0x40_0000 * p)) + 0x40_0000 * (p * p)
}

/// Weights `w` are the softmax of scaled products of the query at `q0` with the
/// visible keys from `k0` on, `stride` apart, and of a score far below them for the
/// others; `ctx` are the values from `k0` on, weighted by them. All up to rounding,
/// wherever it is finite.
pub open spec fn attends_by_products<M: Math>(
    m: &M,
    q: Seq<F32>,
    q0: int,
    k: Seq<F32>,
    v: Seq<F32>,
    k0: int,
    stride: int,
    hd: int,
    keys: int,
    visible: int,
    w: Seq<F32>,
    ctx: Seq<F32>,
) -> bool {
    &&& exists|s: Seq<F32>|
        {
            &&& #[trigger] is_softmax(m, s, w)
            &&& s.len() == keys
            &&& forall|j: int|
                0 <= j < keys && j < visible && (#[trigger] s[j]).finite_spec()
                    ==> is_scaled_product(q, q0, k, k0 + j * stride, hd, s[j])
            &&& forall|j: int|
                0 <= j < keys && j >= visible ==> #[trigger] s[j] == (F32 { bits: MASKED_BITS })
        }
    &&& ctx.len() == hd
    &&& forall|d: int|
        0 <= d < hd && (#[trigger] ctx[d]).finite_spec() ==> near_dot(
            F32 { bits: 0 },
            w,
            0,
            v,
            k0 + d,
            stride,
            w.len(),
            ctx[d],
        )
}

/// A rounded product of a rounded dot product.
#[verifier::rlimit(80)]
#[verifier::spinoff_prover]
proof fn lemma_scaled(s: int, d: int, c: int, x: int, a: int, n: int, p: int)
    requires
        p >= 0x100_0000,
        0 < n <= 0x10_0000,
        c > 0,
        size(x) <= a,
        size(s * p - d * c) * 0x100_0000 <= size(d * c) + 0x80_0000 * p,
        size(d * p - x) * 0x40_0000 <= n * a + n * (0x40_0000 * p),
    ensures
        size(s * (p * p) - x * c) * 0x40_0000 <= c * ((n + 1) * (a + 0x40_0000 * p)) + 0x40_0000 * (p
            * p),
{
    let (dp, dc, pp) = (d * p, d * c, p * p);
    let na = n * a;
    let np = n * p;
    assert(n * (0x40_0000 * p) == 0x40_0000 * np) by (nonlinear_arith)
        requires
            np == n * p,
    ;
    assert(0 <= na <= 0x10_0000 * a && 0 <= np) by (nonlinear_arith)
        requires
            na == n * a,
            0 < n <= 0x10_0000,
            a >= 0,
            np == n * p,
            p > 0,
    ;
    let e = dp - x;
    lemma_size_product(e, c);
    let se = size(e);
    let (nac, npc, ac, pc) = (na * c, np * c, a * c, p * c);
    assert((se * c) * 0x40_0000 <= nac + 0x40_0000 * npc) by (nonlinear_arith)
        requires
            se * 0x40_0000 <= na + 0x40_0000 * np,
            nac == na * c,
            npc == np * c,
            c > 0,
    ;
    let dpc = dp * c;
    assert(e * c == dpc - x * c) by (nonlinear_arith)
        requires
            e == dp - x,
            dpc == dp * c,
    ;
    let g = s * p - dc;
    lemma_size_product(g, p);
    lemma_size_product(dc, p);
    let (sg, sdc) = (size(g), size(dc));
    assert((sg * p) * 0x100_0000 <= sdc * p + 0x80_0000 * pp) by (nonlinear_arith)
        requires
            sg * 0x100_0000 <= sdc + 0x80_0000 * p,
            pp == p * p,
            p > 0,
    ;
    assert(g * p == s * pp - dpc && dc * p == dpc) by (nonlinear_arith)
        requires
            g == s * p - dc,
            pp == p * p,
            dpc == dp * c,
            dp == d * p,
            dc == d * c,
    ;
    lemma_size_product(x, c);
    assert(size(x) * c <= ac && ac >= 0 && pc >= 0 && npc >= 0 && pp >= 0) by (nonlinear_arith)
        requires
            size(x) <= a,
            ac == a * c,
            c > 0,
            a >= 0,
            pc == p * c,
            npc == np * c,
            np >= 0,
            p > 0,
            pp == p * p,
    ;
    assert(nac <= 0x10_0000 * ac) by (nonlinear_arith)
        requires
            nac == na * c,
            na <= 0x10_0000 * a,
            ac == a * c,
            c > 0,
    ;
    assert(c * ((n + 1) * (a + 0x40_0000 * p)) == nac + ac + 0x40_0000 * npc + 0x40_0000 * pc)
        by (nonlinear_arith)
        requires
            nac == na * c,
            na == n * a,
            ac == a * c,
            npc == np * c,
            np == n * p,
            pc == p * c,
    ;
    assert(npc <= 0x10_0000 * pc) by (nonlinear_arith)
        requires
            npc == np * c,
            np == n * p,
            pc == p * c,
            n <= 0x10_0000,
            p > 0,
            c > 0,
    ;
}

/// A score that is finite is a scaled product.
proof fn lemma_score(q: Seq<F32>, q0: int, k: Seq<F32>, k0: int, hd: int, s: F32)
    requires
        0 < hd <= 0x10_0000,
        s == dot(F32 { bits: 0 }, q, q0, k, k0, 1, hd as nat).mul_spec(head_scale_of(hd)),
        s.finite_spec(),
    ensures
        is_scaled_product(q, q0, k, k0, hd, s),
{
    lemma_unit();
    let zero = F32 { bits: 0 };
    let d = dot(zero, q, q0, k, k0, 1, hd as nat);
    let c = head_scale_of(hd);
    scores_spread_alike_in_heads_of_any_size(hd);
    lemma_mul_parts(d, c);
    lemma_mul_miss(d, c);
    dot_products_are_sums_of_products(zero, q, q0, k, k0, 1, hd as nat);
    lemma_value(zero);
    let p = unit();
    assert(0 * p == 0) by (nonlinear_arith);
    assert(is_inverse_root(c.units(), hd));
    lemma_scaled(
        s.units(),
        d.units(),
        c.units(),
        exact_dot(q, q0, k, k0, 1, hd as nat),
        exact_dot_sizes(q, q0, k, k0, 1, hd as nat),
        hd,
        p,
    );
}

/// Softmax of scores and a mix of values.
proof fn lemma_attends<M: Math>(
    m: &M,
    q: Seq<F32>,
    q0: int,
    k: Seq<F32>,
    v: Seq<F32>,
    k0: int,
    stride: int,
    hd: int,
    keys: int,
    visible: int,
    w: Seq<F32>,
    ctx: Seq<F32>,
)
    requires
        0 < hd <= 0x10_0000,
        0 <= keys <= 0x10_0000,
        is_softmax(m, scores_of(q, q0, k, k0, stride, hd, keys, visible, head_scale_of(hd)), w),
        ctx == mix_of(w, v, k0, stride, hd),
    ensures
        attends_by_products(m, q, q0, k, v, k0, stride, hd, keys, visible, w, ctx),
{
    let s = scores_of(q, q0, k, k0, stride, hd, keys, visible, head_scale_of(hd));
    assert forall|j: int|
        0 <= j < keys && j < visible && (#[trigger] s[j]).finite_spec() implies is_scaled_product(
        q,
        q0,
        k,
        k0 + j * stride,
        hd,
        s[j],
    ) by {
        lemma_score(q, q0, k, k0 + j * stride, hd, s[j]);
    }
    assert forall|d: int| 0 <= d < hd && (#[trigger] ctx[d]).finite_spec() implies near_dot(
        F32 { bits: 0 },
        w,
        0,
        v,
        k0 + d,
        stride,
        w.len(),
        ctx[d],
    ) by {
        dot_products_are_sums_of_products(F32 { bits: 0 }, w, 0, v, k0 + d, stride, w.len());
    }
}

/// A head of a decoder attends by scaled products over all cached positions, with the
/// keys and values of its group.
pub proof fn decoder_heads_attend_by_products<M: Math>(
    m: &M,
    a: Attention,
    q: Seq<F32>,
    kc: Seq<F32>,
    vc: Seq<F32>,
    len: int,
    ctx: Seq<F32>,
    h: int,
)
    requires
        a.head_attends(m, q, kc, vc, len, ctx, h),
        0 < a.head_dim <= 0x10_0000,
        0 <= len <= 0x10_0000,
    ensures
        exists|w: Seq<F32>| #[trigger]
            attends_by_products(
                m,
                q,
                h * a.head_dim,
                kc,
                vc,
                a.kv_head(h) * a.head_dim,
                a.n_kv_heads * a.head_dim,
                a.head_dim as int,
                len,
                len,
                w,
                ctx.subrange(h * a.head_dim, h * a.head_dim + a.head_dim),
            ),
{
    let hd = a.head_dim as int;
    let kv0 = a.kv_head(h) * hd;
    let w = choose|w: Seq<F32>|
        #![trigger mix_of(w, vc, kv0, a.kv_dim(), hd)]
        is_softmax(
            m,
            scores_of(q, h * hd, kc, kv0, a.kv_dim(), hd, len, len, head_scale_of(hd)),
            w,
        ) && ctx.subrange(h * hd, h * hd + hd) == mix_of(w, vc, kv0, a.kv_dim(), hd);
    lemma_attends(
        m,
        q,
        h * hd,
        kc,
        vc,
        kv0,
        a.kv_dim(),
        hd,
        len,
        len,
        w,
        ctx.subrange(h * hd, h * hd + hd),
    );
}

/// A head in training attends as a head of a decoder, over the rows up to its own.
pub proof fn trained_heads_attend_by_products<M: Math>(
    m: &M,
    a: Attention,
    q: Seq<F32>,
    k: Seq<F32>,
    v: Seq<F32>,
    w: Seq<F32>,
    ctx: Seq<F32>,
    u: int,
)
    requires
        unit_attends(m, a, q, k, v, w, ctx, u),
        0 < a.head_dim <= 0x10_0000,
        0 <= u / (a.n_heads as int) && u / (a.n_heads as int) + 1 <= 0x10_0000,
    ensures
        attends_by_products(
            m,
            q,
            u * a.head_dim,
            k,
            v,
            a.kv_head(u % a.n_heads as int) * a.head_dim,
            a.n_kv_heads * a.head_dim,
            a.head_dim as int,
            u / a.n_heads as int + 1,
            u / a.n_heads as int + 1,
            w,
            ctx.subrange(u * a.head_dim, u * a.head_dim + a.head_dim),
        ),
{
    let hd = a.head_dim as int;
    let t = u / a.n_heads as int;
    lemma_attends(
        m,
        q,
        u * hd,
        k,
        v,
        a.kv_head(u % a.n_heads as int) * hd,
        a.kv_dim(),
        hd,
        t + 1,
        t + 1,
        w,
        ctx.subrange(u * hd, u * hd + hd),
    );
}

/// A head of a transformer block attends by scaled products within its sequence, over
/// the rows up to its own.
pub proof fn block_heads_attend_by_products<M: Math>(
    m: &M,
    b: TransformerBlock,
    tr: BlockTrace,
    r: int,
    h: int,
)
    requires
        b.attends(m, tr, r, h),
        0 < b.width as int / (b.heads as int) && b.width as int / (b.heads as int) <= 0x10_0000,
        0 < b.context <= 0x10_0000,
    ensures
        ({
            let t = b.context as int;
            let c = b.width as int;
            let hd = c / b.heads as int;
            attends_by_products(
                m,
                tr.q.data@,
                r * c + h * hd,
                tr.k.data@,
                tr.v.data@,
                (r / t) * t * c + h * hd,
                c,
                hd,
                t,
                r % t + 1,
                tr.weights@.subrange(b.unit(r, h) * t, b.unit(r, h) * t + t),
                head_part(tr.mixed.data@, r, h, c, hd),
            )
        }),
{
    let t = b.context as int;
    let c = b.width as int;
    let hd = b.head_dim();
    lemma_attends(
        m,
        tr.q.data@,
        r * c + h * hd,
        tr.k.data@,
        tr.v.data@,
        (r / t) * t * c + h * hd,
        c,
        hd,
        t,
        r % t + 1,
        tr.weights@.subrange(b.unit(r, h) * t, b.unit(r, h) * t + t),
        head_part(tr.mixed.data@, r, h, c, hd),
    );
}

/// A head of a transformer block with a cache attends by scaled products over all
/// cached positions.
pub proof fn cached_heads_attend_by_products<M: Math>(
    m: &M,
    b: TransformerBlock,
    q: Seq<F32>,
    cache: KvCache,
    weights: Seq<F32>,
    mixed: Seq<F32>,
    h: int,
)
    requires
        b.attends_cached(m, q, cache, weights, mixed, h),
        0 < b.width as int / (b.heads as int) && b.width as int / (b.heads as int) <= 0x10_0000,
        cache.count <= 0x10_0000,
    ensures
        ({
            let c = b.width as int;
            let hd = c / b.heads as int;
            let n = cache.count as int;
            attends_by_products(
                m,
                q,
                h * hd,
                cache.k@,
                cache.v@,
                h * hd,
                c,
                hd,
                n,
                n,
                weights.subrange(h * n, h * n + n),
                head_part(mixed, 0, h, c, hd),
            )
        }),
{
    let c = b.width as int;
    let hd = b.head_dim();
    let n = cache.count as int;
    lemma_attends(
        m,
        q,
        h * hd,
        cache.k@,
        cache.v@,
        h * hd,
        c,
        hd,
        n,
        n,
        weights.subrange(h * n, h * n + n),
        head_part(mixed, 0, h, c, hd),
    );
}

/// Query heads share the heads of keys and values in groups of one size, in order:
/// every head of keys and values serves as many query heads as every other, and they
/// stand next to each other.
pub proof fn query_heads_share_in_groups(a: Attention, h: int)
    requires
        a.n_kv_heads > 0,
        a.n_heads as int % a.n_kv_heads as int == 0,
        0 <= h < a.n_heads,
    ensures
        0 <= a.kv_head(h) < a.n_kv_heads,
        a.kv_head(h) * a.n_heads <= h * a.n_kv_heads,
        h * a.n_kv_heads < (a.kv_head(h) + 1) * a.n_heads,
{
    let (n, k) = (a.n_heads as int, a.n_kv_heads as int);
    let g = n / k;
    let q = h / g;
    assert(n == g * k) by (nonlinear_arith)
        requires
            g == n / k,
            n % k == 0,
            k > 0,
    ;
    assert(g > 0) by (nonlinear_arith)
        requires
            n == g * k,
            n > 0,
            k > 0,
    ;
    assert(q * g <= h && h < (q + 1) * g && q >= 0) by (nonlinear_arith)
        requires
            q == h / g,
            g > 0,
            h >= 0,
    ;
    assert(q * n <= h * k && h * k < (q + 1) * n && q < k) by (nonlinear_arith)
        requires
            q * g <= h,
            h < (q + 1) * g,
            n == g * k,
            h < n,
            k > 0,
            g > 0,
    ;
}

} // verus!
