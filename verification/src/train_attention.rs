//! Grouped-query attention with its derivatives.
use crate::attention::{attend_head, dot_product, head_scale, head_scale_of, mix_of, scores_of};
use crate::float::F32;
use crate::index::{cell, lemma_row, lemma_split};
use crate::llm::{add_rows, add_rows_exec, Attention};
use crate::math::Math;
use crate::ops::{append_row, dot, is_softmax, sum, sum_of};
use crate::tensor::copy_f32;
use crate::train_ops::{
    affine, affine_adds, affine_dx, is_plain, lemma_unsplit, lin_backward, lin_forward, LinBuf, Rope,
};
use vstd::prelude::*;

verus! {

/// What the forward pass of an attention leaves behind.
pub struct AttnCache {
    /// The input rows.
    pub xn: Vec<F32>,
    /// Queries and keys, turned, and values.
    pub q: Vec<F32>,
    pub k: Vec<F32>,
    pub v: Vec<F32>,
    /// The mixed values.
    pub ctx: Vec<F32>,
    /// The weights of each row and head.
    pub probs: Vec<Vec<F32>>,
}

/// Gradients, or moments of gradients, of a block.
pub struct BlockBuf {
    pub attn_norm: Vec<F32>,
    pub wq: LinBuf,
    pub wk: LinBuf,
    pub wv: LinBuf,
    pub wo: LinBuf,
    pub ffn_norm: Vec<F32>,
    pub gate: LinBuf,
    pub up: LinBuf,
    pub down: LinBuf,
}

/// The sequences of vectors.
pub open spec fn rows_view(v: Seq<Vec<F32>>) -> Seq<Seq<F32>> {
    v.map_values(|r: Vec<F32>| r@)
}

/// An attention whose projections are in full precision.
pub open spec fn attn_is_plain(a: Attention) -> bool {
    &&& a.fits()
    &&& is_plain(a.wq) && is_plain(a.wk) && is_plain(a.wv) && is_plain(a.wo)
}

// ---------------------------------------------------------------------------
// Forward
// ---------------------------------------------------------------------------

/// Row `u / heads`, head `u % heads` attends over the rows up to its own.
pub open spec fn unit_attends<M: Math>(
    m: &M,
    a: Attention,
    q: Seq<F32>,
    k: Seq<F32>,
    v: Seq<F32>,
    w: Seq<F32>,
    ctx: Seq<F32>,
    u: int,
) -> bool {
    let hd = a.head_dim as int;
    let t = u / a.n_heads as int;
    let kv0 = a.kv_head(u % a.n_heads as int) * hd;
    &&& is_softmax(
        m,
        scores_of(q, u * hd, k, kv0, a.kv_dim(), hd, t + 1, t + 1, head_scale_of(hd)),
        w,
    )
    &&& ctx.subrange(u * hd, u * hd + hd) == mix_of(w, v, kv0, a.kv_dim(), hd)
}

/// The cache is that of the rows `xn`.
pub open spec fn attn_forwarded<M: Math>(
    m: &M,
    a: Attention,
    rope: Rope,
    xn: Seq<F32>,
    seq: int,
    c: AttnCache,
) -> bool {
    let units = seq * a.n_heads;
    &&& c.xn@ == xn
    &&& rope.turns_rows(m, affine(a.wq, xn, seq), c.q@, a.n_heads as int, seq, false)
    &&& rope.turns_rows(m, affine(a.wk, xn, seq), c.k@, a.n_kv_heads as int, seq, false)
    &&& c.v@ == affine(a.wv, xn, seq)
    &&& c.probs@.len() == units
    &&& c.ctx@.len() == units * a.head_dim
    &&& forall|u: int|
        0 <= u < units ==> unit_attends(m, a, c.q@, c.k@, c.v@, (#[trigger] c.probs@[u])@, c.ctx@, u)
}

/// The sizes of a cache.
pub open spec fn cache_sized(a: Attention, xn_len: int, seq: int, c: AttnCache) -> bool {
    &&& c.xn@.len() == xn_len
    &&& c.q@.len() == seq * a.q_dim()
    &&& c.k@.len() == seq * a.kv_dim()
    &&& c.v@.len() == seq * a.kv_dim()
    &&& c.ctx@.len() == seq * a.q_dim()
    &&& c.probs@.len() == seq * a.n_heads
    &&& forall|u: int|
        0 <= u < c.probs@.len() ==> (#[trigger] c.probs@[u])@.len() == u / a.n_heads as int + 1
}

/// Facts about the units of an attention: place in the queries, and the head of
/// keys and values.
proof fn lemma_unit(a: Attention, seq: int, u: int)
    requires
        a.fits(),
        0 <= u < seq * a.n_heads,
    ensures
        a.n_heads > 0,
        0 <= u / (a.n_heads as int) < seq,
        0 <= u % (a.n_heads as int) < a.n_heads,
        0 <= u * a.head_dim,
        u * a.head_dim + a.head_dim <= seq * a.q_dim(),
        0 <= a.kv_head(u % a.n_heads as int) < a.n_kv_heads,
        0 <= a.kv_head(u % a.n_heads as int) * a.head_dim,
        a.kv_head(u % a.n_heads as int) * a.head_dim + a.head_dim <= a.kv_dim(),
        a.n_heads as int / a.n_kv_heads as int > 0,
{
    let nh = a.n_heads as int;
    let hd = a.head_dim as int;
    lemma_split(u, seq, nh);
    lemma_row(u, seq * nh, hd);
    assert((seq * nh) * hd == seq * (nh * hd)) by (nonlinear_arith);
    let h = u % nh;
    let nkv = a.n_kv_heads as int;
    let group = nh / nkv;
    assert(nh == nkv * group && group > 0) by (nonlinear_arith)
        requires
            nkv > 0,
            nh > 0,
            nh % nkv == 0,
            group == nh / nkv,
    ;
    assert(0 <= h / group < nkv) by (nonlinear_arith)
        requires
            0 <= h < nkv * group,
            group > 0,
    ;
    lemma_row(h / group, nkv, hd);
}

/// The attention of all rows, each over the rows up to its own.
pub(crate) fn attn_forward<M: Math>(
    m: &M,
    a: &Attention,
    rope: &Rope,
    xn: &[F32],
    seq: usize,
) -> (c: AttnCache)
    requires
        attn_is_plain(*a),
        rope.wf(),
        rope.head_dim == a.head_dim,
        xn@.len() == seq * a.wq.in_f,
        seq * a.q_dim() <= usize::MAX,
        seq * a.kv_dim() <= usize::MAX,
        seq * a.n_heads <= usize::MAX,
    ensures
        attn_forwarded(m, *a, *rope, xn@, seq as int, c),
        cache_sized(*a, xn@.len() as int, seq as int, c),
{
    let q: Vec<F32> = rope.apply_rows(
        m,
        lin_forward(&a.wq, xn, seq).as_slice(),
        a.n_heads,
        seq,
        false,
    );
    let k: Vec<F32> = rope.apply_rows(
        m,
        lin_forward(&a.wk, xn, seq).as_slice(),
        a.n_kv_heads,
        seq,
        false,
    );
    let v: Vec<F32> = lin_forward(&a.wv, xn, seq);
    let nh: usize = a.n_heads;
    let hd: usize = a.head_dim;
    let kv_dim: usize = a.wk.out_f;
    let group: usize = nh / a.n_kv_heads;
    let scale: F32 = head_scale(hd);
    let units: usize = seq * nh;
    let lk: usize = k.len();
    let lq: usize = q.len();
    let mut ctx: Vec<F32> = Vec::new();
    let mut probs: Vec<Vec<F32>> = Vec::new();
    let mut u: usize = 0;
    proof {
        assert(0 * hd == 0) by (nonlinear_arith);
        assert(units * hd == seq * (nh * hd)) by (nonlinear_arith)
            requires
                units == seq * nh,
        ;
    }
    while u < units
        invariant
            attn_is_plain(*a),
            u <= units == seq * nh,
            nh == a.n_heads,
            hd == a.head_dim,
            kv_dim == a.kv_dim(),
            group == nh as int / a.n_kv_heads as int,
            scale == head_scale_of(hd as int),
            lq == q@.len() == seq * a.q_dim(),
            lk == k@.len() == seq * kv_dim,
            v@.len() == seq * kv_dim,
            probs@.len() == u,
            ctx@.len() == u * hd,
            forall|t: int|
                0 <= t < u ==> unit_attends(
                    m,
                    *a,
                    q@,
                    k@,
                    v@,
                    (#[trigger] probs@[t])@,
                    ctx@,
                    t,
                ),
            forall|t: int|
                0 <= t < u ==> (#[trigger] probs@[t])@.len() == t / (nh as int) + 1,
        decreases units - u,
    {
        proof {
            lemma_unit(*a, seq as int, u as int);
        }
        let t: usize = u / nh;
        let h: usize = u % nh;
        proof {
            lemma_row(t as int, seq as int, kv_dim as int);
            assert((t + 1 - 1) * kv_dim == t * kv_dim);
        }
        let kv0: usize = (h / group) * hd;
        let (w, out) = attend_head(
            m,
            q.as_slice(),
            u * hd,
            k.as_slice(),
            v.as_slice(),
            kv0,
            kv_dim,
            hd,
            t + 1,
            t + 1,
            scale,
        );
        let ghost before = ctx@;
        let ghost p0 = probs@;
        append_row(&mut ctx, out.as_slice());
        probs.push(w);
        proof {
            assert((u + 1) * hd == u * hd + hd) by (nonlinear_arith);
            assert(ctx@.subrange(u * hd, u * hd + hd) =~= out@);
            assert forall|s: int| 0 <= s < u + 1 implies unit_attends(
                m,
                *a,
                q@,
                k@,
                v@,
                (#[trigger] probs@[s])@,
                ctx@,
                s,
            ) by {
                if s < u {
                    assert(probs@[s] == p0[s]);
                    assert(unit_attends(m, *a, q@, k@, v@, p0[s]@, before, s));
                    lemma_row(s, u as int, hd as int);
                    assert(ctx@.subrange(s * hd, s * hd + hd) =~= before.subrange(
                        s * hd,
                        s * hd + hd,
                    ));
                }
            }
        }
        u = u + 1;
    }
    AttnCache { xn: copy_f32(xn), q, k, v, ctx, probs }
}

// ---------------------------------------------------------------------------
// Backward
// ---------------------------------------------------------------------------

/// The gradients of the weights of a unit.
pub open spec fn weight_gradients(a: Attention, v: Seq<F32>, dctx: Seq<F32>, u: int) -> Seq<F32> {
    let hd = a.head_dim as int;
    let kv0 = a.kv_head(u % a.n_heads as int) * hd;
    Seq::new(
        (u / a.n_heads as int + 1) as nat,
        |j: int| dot(F32 { bits: 0 }, dctx, u * hd, v, j * a.kv_dim() + kv0, 1, hd as nat),
    )
}

/// The products of weights and their gradients.
pub open spec fn products(p: Seq<F32>, dp: Seq<F32>) -> Seq<F32> {
    Seq::new(p.len(), |j: int| p[j].mul_spec(dp[j]))
}

/// The gradients of the scores of a unit, times the scale.
pub open spec fn score_gradients(p: Seq<F32>, dp: Seq<F32>, scale: F32) -> Seq<F32> {
    let mean = sum_of(products(p, dp));
    Seq::new(p.len(), |j: int| p[j].mul_spec(dp[j].sub_spec(mean)).mul_spec(scale))
}

/// The gradients of the scores of each unit.
pub open spec fn all_score_gradients(
    a: Attention,
    v: Seq<F32>,
    probs: Seq<Seq<F32>>,
    dctx: Seq<F32>,
) -> Seq<Seq<F32>> {
    Seq::new(
        probs.len(),
        |u: int|
            score_gradients(
                probs[u],
                weight_gradients(a, v, dctx, u),
                head_scale_of(a.head_dim as int),
            ),
    )
}

/// The gradients of the queries, before they are turned back.
pub open spec fn query_gradients(a: Attention, k: Seq<F32>, ds: Seq<Seq<F32>>) -> Seq<F32> {
    let hd = a.head_dim as int;
    Seq::new(
        (ds.len() * hd) as nat,
        |e: int|
            {
                let u = e / hd;
                let kv0 = a.kv_head(u % a.n_heads as int) * hd;
                dot(
                    F32 { bits: 0 },
                    ds[u],
                    0,
                    k,
                    kv0 + e % hd,
                    a.kv_dim(),
                    (u / a.n_heads as int + 1) as nat,
                )
            },
    )
}

/// Whether unit `u` sees element `e` of keys and values.
pub open spec fn unit_sees(a: Attention, u: int, e: int) -> bool {
    &&& e / a.kv_dim() <= u / a.n_heads as int
    &&& (e % a.kv_dim()) / a.head_dim as int == a.kv_head(u % a.n_heads as int)
}

/// The sum over the first `n` units that see element `e`: their factor for its
/// row times their element of its channel.
pub open spec fn seen_sum(a: Attention, f: Seq<Seq<F32>>, x: Seq<F32>, e: int, n: nat) -> F32
    decreases n,
{
    if n == 0 {
        F32 { bits: 0 }
    } else {
        let u = n - 1;
        let before = seen_sum(a, f, x, e, (n - 1) as nat);
        if unit_sees(a, u, e) {
            let hd = a.head_dim as int;
            before.add_spec(
                f[u][e / a.kv_dim()].mul_spec(x[cell(u, (e % a.kv_dim()) % hd, hd)]),
            )
        } else {
            before
        }
    }
}

/// The sums over all units, for each element of keys or values.
pub open spec fn seen_sums(a: Attention, f: Seq<Seq<F32>>, x: Seq<F32>, seq: int) -> Seq<F32> {
    Seq::new((seq * a.kv_dim()) as nat, |e: int| seen_sum(a, f, x, e, f.len()))
}

/// The gradients of an attention are added to a buffer, by way of the gradients
/// `dq` and `dk` of queries and keys before they were turned.
pub open spec fn attn_backed_via<M: Math>(
    m: &M,
    a: Attention,
    rope: Rope,
    c: AttnCache,
    d_o: Seq<F32>,
    seq: int,
    g0: BlockBuf,
    g1: BlockBuf,
    dx: Seq<F32>,
    dq: Seq<F32>,
    dk: Seq<F32>,
) -> bool {
    let probs = rows_view(c.probs@);
    let dctx = affine_dx(a.wo, d_o, seq);
    let ds = all_score_gradients(a, c.v@, probs, dctx);
    let dv = seen_sums(a, probs, dctx, seq);
    &&& rope.turns_rows(m, query_gradients(a, c.k@, ds), dq, a.n_heads as int, seq, true)
    &&& rope.turns_rows(m, seen_sums(a, ds, c.q@, seq), dk, a.n_kv_heads as int, seq, true)
    &&& affine_adds(a.wo, c.ctx@, d_o, seq, g0.wo, g1.wo)
    &&& affine_adds(a.wq, c.xn@, dq, seq, g0.wq, g1.wq)
    &&& affine_adds(a.wk, c.xn@, dk, seq, g0.wk, g1.wk)
    &&& affine_adds(a.wv, c.xn@, dv, seq, g0.wv, g1.wv)
    &&& g1.attn_norm == g0.attn_norm
    &&& g1.ffn_norm == g0.ffn_norm
    &&& g1.gate == g0.gate && g1.up == g0.up && g1.down == g0.down
    &&& dx == add_rows(
        add_rows(affine_dx(a.wq, dq, seq), affine_dx(a.wk, dk, seq)),
        affine_dx(a.wv, dv, seq),
    )
}

/// The gradients of an attention are added to a buffer.
pub open spec fn attn_backed<M: Math>(
    m: &M,
    a: Attention,
    rope: Rope,
    c: AttnCache,
    d_o: Seq<F32>,
    seq: int,
    g0: BlockBuf,
    g1: BlockBuf,
    dx: Seq<F32>,
) -> bool {
    exists|dq: Seq<F32>, dk: Seq<F32>| #[trigger]
        attn_backed_via(m, a, rope, c, d_o, seq, g0, g1, dx, dq, dk)
}

impl BlockBuf {
    /// The sizes are those of an attention.
    pub open spec fn suits_attn(self, a: Attention) -> bool {
        self.wq.suits(a.wq) && self.wk.suits(a.wk) && self.wv.suits(a.wv) && self.wo.suits(a.wo)
    }
}

/// The gradients of the scores of a unit.
fn unit_gradients(a: &Attention, v: &Vec<F32>, p: &Vec<F32>, dctx: &Vec<F32>, u: usize, seq: usize) -> (ds:
    Vec<F32>)
    requires
        a.fits(),
        u < seq * a.n_heads,
        v@.len() == seq * a.kv_dim(),
        dctx@.len() == seq * a.q_dim(),
        p@.len() == u as int / a.n_heads as int + 1,
    ensures
        ds@ == score_gradients(
            p@,
            weight_gradients(*a, v@, dctx@, u as int),
            head_scale_of(a.head_dim as int),
        ),
{
    proof {
        lemma_unit(*a, seq as int, u as int);
    }
    let hd: usize = a.head_dim;
    let nh: usize = a.n_heads;
    let kv_dim: usize = a.wk.out_f;
    let h: usize = u % nh;
    let t: usize = u / nh;
    let group: usize = nh / a.n_kv_heads;
    let lc: usize = dctx.len();
    let kv0: usize = (h / group) * hd;
    let lv: usize = v.len();
    let ghost goal = weight_gradients(*a, v@, dctx@, u as int);
    let mut dp: Vec<F32> = Vec::new();
    let mut prod: Vec<F32> = Vec::new();
    let mut j: usize = 0;
    while j < p.len()
        invariant
            j <= p@.len() == t + 1,
            t < seq,
            goal == weight_gradients(*a, v@, dctx@, u as int),
            goal.len() == t + 1,
            t == u as int / nh as int,
            nh == a.n_heads,
            hd == a.head_dim,
            kv_dim == a.kv_dim(),
            kv0 == a.kv_head(u as int % nh as int) * hd,
            kv0 + hd <= kv_dim,
            lv == v@.len() == seq * kv_dim,
            lc == dctx@.len(),
            u * hd + hd <= lc,
            dp@.len() == j,
            prod@.len() == j,
            forall|i: int| 0 <= i < j ==> #[trigger] dp@[i] == goal[i],
            forall|i: int| 0 <= i < j ==> #[trigger] prod@[i] == p@[i].mul_spec(goal[i]),
        decreases p@.len() - j,
    {
        proof {
            lemma_row(j as int, seq as int, kv_dim as int);
            assert(u * hd >= 0) by (nonlinear_arith);
        }
        let d: F32 = dot_product(
            F32::zero(),
            dctx.as_slice(),
            u * hd,
            v.as_slice(),
            j * kv_dim + kv0,
            1,
            hd,
        );
        dp.push(d);
        prod.push(p[j].mul(d));
        j = j + 1;
    }
    proof {
        assert(dp@ =~= goal);
        assert(prod@ =~= products(p@, goal));
    }
    let mean: F32 = sum(prod.as_slice());
    let scale: F32 = head_scale(hd);
    let mut ds: Vec<F32> = Vec::new();
    let mut i: usize = 0;
    while i < p.len()
        invariant
            i <= p@.len() == dp@.len(),
            ds@.len() == i,
            forall|k: int|
                0 <= k < i ==> #[trigger] ds@[k] == p@[k].mul_spec(dp@[k].sub_spec(mean)).mul_spec(
                    scale,
                ),
        decreases p@.len() - i,
    {
        ds.push(p[i].mul(dp[i].sub(mean)).mul(scale));
        i = i + 1;
    }
    assert(ds@ =~= score_gradients(p@, goal, scale));
    ds
}

/// The gradients of the queries, before they are turned back.
fn query_gradients_exec(a: &Attention, k: &Vec<F32>, ds: &Vec<Vec<F32>>, seq: usize) -> (dq: Vec<
    F32,
>)
    requires
        a.fits(),
        ds@.len() == seq * a.n_heads,
        k@.len() == seq * a.kv_dim(),
        forall|u: int|
            0 <= u < ds@.len() ==> (#[trigger] ds@[u])@.len() == u / a.n_heads as int + 1,
    ensures
        dq@ == query_gradients(*a, k@, rows_view(ds@)),
        dq@.len() == ds@.len() * a.head_dim,
{
    let hd: usize = a.head_dim;
    let nh: usize = a.n_heads;
    let kv_dim: usize = a.wk.out_f;
    let group: usize = nh / a.n_kv_heads;
    let units: usize = ds.len();
    let lk: usize = k.len();
    let ghost view = rows_view(ds@);
    let ghost goal = query_gradients(*a, k@, view);
    let mut dq: Vec<F32> = Vec::new();
    let mut u: usize = 0;
    assert(0 * hd == 0) by (nonlinear_arith);
    while u < units
        invariant
            a.fits(),
            u <= units == ds@.len() == seq * nh,
            nh == a.n_heads,
            hd == a.head_dim,
            kv_dim == a.kv_dim(),
            group == nh as int / a.n_kv_heads as int,
            lk == k@.len() == seq * kv_dim,
            view == rows_view(ds@),
            goal == query_gradients(*a, k@, view),
            goal.len() == units * hd,
            forall|u: int|
                0 <= u < ds@.len() ==> (#[trigger] ds@[u])@.len() == u / a.n_heads as int + 1,
            dq@.len() == u * hd,
            forall|e: int| 0 <= e < dq@.len() ==> #[trigger] dq@[e] == goal[e],
        decreases units - u,
    {
        proof {
            lemma_unit(*a, seq as int, u as int);
            lemma_row(u as int, units as int, hd as int);
        }
        let t: usize = u / nh;
        let h: usize = u % nh;
        let kv0: usize = (h / group) * hd;
        proof {
            lemma_row(t as int, seq as int, kv_dim as int);
            assert(ds@[u as int]@.len() == t + 1);
            assert(view[u as int] == ds@[u as int]@);
        }
        let mut d: usize = 0;
        while d < hd
            invariant
                d <= hd == a.head_dim,
                u < units == ds@.len(),
                t == u as int / nh as int,
                nh == a.n_heads,
                kv_dim == a.kv_dim(),
                kv0 == a.kv_head(u as int % nh as int) * hd,
                kv0 + hd <= kv_dim,
                t * kv_dim + kv_dim <= lk == k@.len(),
                view == rows_view(ds@),
                view[u as int] == ds@[u as int]@,
                ds@[u as int]@.len() == t + 1,
                goal == query_gradients(*a, k@, view),
                goal.len() == units * hd,
                u * hd + hd <= units * hd,
                dq@.len() == u * hd + d,
                forall|e: int| 0 <= e < dq@.len() ==> #[trigger] dq@[e] == goal[e],
            decreases hd - d,
        {
            proof {
                lemma_unsplit(u as int, d as int, hd as int);
                assert((t + 1 - 1) * kv_dim == t * kv_dim);
            }
            let keys: usize = ds[u].len();
            dq.push(
                dot_product(
                    F32::zero(),
                    ds[u].as_slice(),
                    0,
                    k.as_slice(),
                    kv0 + d,
                    kv_dim,
                    keys,
                ),
            );
            d = d + 1;
        }
        u = u + 1;
    }
    assert(dq@ =~= goal);
    dq
}

/// The sums over all units, for each element of keys or values.
fn seen_sums_exec(a: &Attention, f: &Vec<Vec<F32>>, x: &Vec<F32>, seq: usize) -> (r: Vec<F32>)
    requires
        a.fits(),
        f@.len() == seq * a.n_heads,
        x@.len() == seq * a.q_dim(),
        seq * a.kv_dim() <= usize::MAX,
        forall|u: int|
            0 <= u < f@.len() ==> (#[trigger] f@[u])@.len() == u / a.n_heads as int + 1,
    ensures
        r@ == seen_sums(*a, rows_view(f@), x@, seq as int),
        r@.len() == seq * a.kv_dim(),
{
    let hd: usize = a.head_dim;
    let nh: usize = a.n_heads;
    let kv_dim: usize = a.wk.out_f;
    let group: usize = nh / a.n_kv_heads;
    let units: usize = f.len();
    let total: usize = seq * kv_dim;
    let lx: usize = x.len();
    let ghost view = rows_view(f@);
    let mut r: Vec<F32> = Vec::new();
    let mut e: usize = 0;
    while e < total
        invariant
            a.fits(),
            e <= total == seq * kv_dim,
            units == f@.len() == seq * nh,
            nh == a.n_heads,
            hd == a.head_dim,
            kv_dim == a.kv_dim(),
            group == nh as int / a.n_kv_heads as int,
            lx == x@.len() == seq * a.q_dim(),
            view == rows_view(f@),
            forall|u: int|
                0 <= u < f@.len() ==> (#[trigger] f@[u])@.len() == u / a.n_heads as int + 1,
            r@.len() == e,
            forall|c: int|
                0 <= c < e ==> #[trigger] r@[c] == seen_sum(*a, view, x@, c, view.len()),
        decreases total - e,
    {
        proof {
            lemma_split(e as int, seq as int, kv_dim as int);
            lemma_split(e as int % kv_dim as int, a.n_kv_heads as int, hd as int);
        }
        let j: usize = e / kv_dim;
        let g: usize = (e % kv_dim) / hd;
        let d: usize = (e % kv_dim) % hd;
        let mut acc: F32 = F32::zero();
        let mut u: usize = 0;
        while u < units
            invariant
                a.fits(),
                u <= units == f@.len() == seq * nh,
                nh == a.n_heads,
                hd == a.head_dim,
                kv_dim == a.kv_dim(),
                group == nh as int / a.n_kv_heads as int,
                lx == x@.len() == seq * a.q_dim(),
                view == rows_view(f@),
                j == e as int / kv_dim as int,
                g == (e as int % kv_dim as int) / hd as int,
                d == (e as int % kv_dim as int) % hd as int,
                d < hd,
                forall|u: int|
                    0 <= u < f@.len() ==> (#[trigger] f@[u])@.len() == u / a.n_heads as int + 1,
                acc == seen_sum(*a, view, x@, e as int, u as nat),
            decreases units - u,
        {
            proof {
                lemma_unit(*a, seq as int, u as int);
                assert((u + 1 - 1) as nat == u as nat);
                assert(view[u as int] == f@[u as int]@);
            }
            let t: usize = u / nh;
            let h: usize = u % nh;
            if j <= t && g == h / group {
                assert(unit_sees(*a, u as int, e as int));
                assert(f@[u as int]@.len() == t + 1);
                acc = acc.add(f[u][j].mul(x[u * hd + d]));
            } else {
                assert(!unit_sees(*a, u as int, e as int));
            }
            u = u + 1;
        }
        r.push(acc);
        e = e + 1;
    }
    assert(r@ =~= seen_sums(*a, view, x@, seq as int));
    r
}

/// Adds the gradients of an attention to a buffer; the gradient of its rows.
pub(crate) fn attn_backward<M: Math>(
    m: &M,
    a: &Attention,
    rope: &Rope,
    c: &AttnCache,
    d_o: &[F32],
    seq: usize,
    g: &mut BlockBuf,
) -> (dx: Vec<F32>)
    requires
        attn_is_plain(*a),
        rope.wf(),
        rope.head_dim == a.head_dim,
        cache_sized(*a, seq * a.wq.in_f, seq as int, *c),
        d_o@.len() == seq * a.wo.out_f,
        old(g).suits_attn(*a),
    ensures
        attn_backed(m, *a, *rope, *c, d_o@, seq as int, *old(g), *final(g), dx@),
        final(g).suits_attn(*a),
        dx@.len() == seq * a.wq.in_f,
{
    let nh: usize = a.n_heads;
    let ghost g0 = *g;
    let lc: usize = c.ctx.len();
    let lk: usize = c.k.len();
    let dctx: Vec<F32> = lin_backward(&a.wo, c.ctx.as_slice(), d_o, seq, &mut g.wo);
    let units: usize = c.probs.len();
    let ghost probs = rows_view(c.probs@);
    let ghost goal = all_score_gradients(*a, c.v@, probs, dctx@);
    let mut ds: Vec<Vec<F32>> = Vec::new();
    let mut u: usize = 0;
    while u < units
        invariant
            attn_is_plain(*a),
            cache_sized(*a, seq * a.wq.in_f, seq as int, *c),
            u <= units == c.probs@.len() == seq * a.n_heads,
            dctx@.len() == seq * a.q_dim(),
            probs == rows_view(c.probs@),
            goal == all_score_gradients(*a, c.v@, probs, dctx@),
            ds@.len() == u,
            forall|t: int| 0 <= t < u ==> (#[trigger] ds@[t])@ == goal[t],
            forall|t: int|
                0 <= t < u ==> (#[trigger] ds@[t])@.len() == t / a.n_heads as int + 1,
        decreases units - u,
    {
        assert(probs[u as int] == c.probs@[u as int]@);
        ds.push(unit_gradients(a, &c.v, &c.probs[u], &dctx, u, seq));
        u = u + 1;
    }
    assert(rows_view(ds@) =~= goal);
    let dq_raw: Vec<F32> = query_gradients_exec(a, &c.k, &ds, seq);
    let dk_raw: Vec<F32> = seen_sums_exec(a, &ds, &c.q, seq);
    let dv: Vec<F32> = seen_sums_exec(a, &c.probs, &dctx, seq);
    proof {
        assert(units * a.head_dim == seq * (nh * a.head_dim)) by (nonlinear_arith)
            requires
                units == seq * nh,
        ;
    }
    let dq: Vec<F32> = rope.apply_rows(m, dq_raw.as_slice(), a.n_heads, seq, true);
    let dk: Vec<F32> = rope.apply_rows(m, dk_raw.as_slice(), a.n_kv_heads, seq, true);
    let dxq: Vec<F32> = lin_backward(&a.wq, c.xn.as_slice(), dq.as_slice(), seq, &mut g.wq);
    let dxk: Vec<F32> = lin_backward(&a.wk, c.xn.as_slice(), dk.as_slice(), seq, &mut g.wk);
    let dxv: Vec<F32> = lin_backward(&a.wv, c.xn.as_slice(), dv.as_slice(), seq, &mut g.wv);
    let part: Vec<F32> = add_rows_exec(dxq.as_slice(), dxk.as_slice());
    let dx: Vec<F32> = add_rows_exec(part.as_slice(), dxv.as_slice());
    assert(attn_backed_via(m, *a, *rope, *c, d_o@, seq as int, g0, *g, dx@, dq@, dk@));
    dx
}

} // verus!
