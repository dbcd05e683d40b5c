//! What the forward pass of training does to rows: the steps of decoding, for all rows at
//! once; each up to rounding.
use crate::activation::is_sigmoid;
use crate::attention_laws::{attends_by_products, trained_heads_attend_by_products};
use crate::backward_laws::{is_triple, lemma_triple};
use crate::decoder_laws::{
    is_rms_normed, is_row_sum, is_turned, lemma_rows_add, norms_divide_by_the_root_mean_square,
    pairs_turn_by_the_angles_of_their_position,
};
use crate::float::F32;
use crate::float_errors::{lemma_mul_miss, size, unit};
use crate::index::{cell, lemma_cell, lemma_row};
use crate::layer::Linear;
use crate::llm::{are_angles, is_rope, rope_via, turned, Attention, LlamaBlock, RmsNorm};
use crate::math::Math;
use crate::ops::row_of;
use crate::sum_errors::{dot_products_are_sums_of_products, lemma_mul_parts, near_dot};
use crate::train_attention::{attn_forwarded, unit_attends, AttnCache};
use crate::train_block::{
    block_forwarded, block_out, ffn_forwarded, is_hidden, is_masked, is_masked_hidden, BlockCache,
    FfnCache,
};
use crate::train_ops::{affine, is_swish, rms_rows, Rope};
use vstd::prelude::*;

verus! {

/// Every number that a layer gives is the bias and the sum of the products of its row with
/// the weights that lead there.
pub open spec fn is_layer_output(l: Linear, x: Seq<F32>, rows: int, y: Seq<F32>) -> bool {
    let (k, n) = (l.in_f as int, l.out_f as int);
    &&& y.len() == rows * n
    &&& forall|r: int, o: int|
        0 <= r < rows && 0 <= o < n && y[#[trigger] cell(r, o, n)].finite_spec() ==> near_dot(
            l.bias.data@[o],
            x,
            r * k,
            l.weight.data@,
            o,
            n,
            k as nat,
            y[cell(r, o, n)],
        )
}

proof fn lemma_output(l: Linear, x: Seq<F32>, rows: int)
    requires
        l.in_f <= 0x10_0000,
        rows >= 0,
    ensures
        is_layer_output(l, x, rows, affine(l, x, rows)),
{
    let (k, n) = (l.in_f as int, l.out_f as int);
    let y = affine(l, x, rows);
    assert(rows * n >= 0) by (nonlinear_arith)
        requires
            rows >= 0,
            n >= 0,
    ;
    assert forall|r: int, o: int|
        0 <= r < rows && 0 <= o < n && y[#[trigger] cell(r, o, n)].finite_spec() implies near_dot(
        l.bias.data@[o],
        x,
        r * k,
        l.weight.data@,
        o,
        n,
        k as nat,
        y[cell(r, o, n)],
    ) by {
        lemma_cell(r, o, rows, n);
        let t = cell(r, o, n);
        assert(t / n == r && t % n == o) by (nonlinear_arith)
            requires
                t == r * n + o,
                0 <= o < n,
                0 <= r,
        ;
        dot_products_are_sums_of_products(
            l.bias.data@[o],
            x,
            r * k,
            l.weight.data@,
            o,
            n,
            k as nat,
        );
    }
}

/// Every row is divided by its root mean square.
pub open spec fn are_rms_normed(n: RmsNorm, x: Seq<F32>, rows: int, z: Seq<F32>) -> bool {
    let d = n.weight@.len() as int;
    forall|r: int|
        0 <= r < rows ==> is_rms_normed(n, row_of(x, r, d), #[trigger] row_of(z, r, d))
}

proof fn lemma_normed(n: RmsNorm, x: Seq<F32>, rows: int)
    requires
        x.len() == rows * n.weight@.len(),
        n.weight@.len() <= 0x10_0000,
        rows >= 0,
    ensures
        are_rms_normed(n, x, rows, rms_rows(x, n.weight@, n.eps, rows)),
{
    let d = n.weight@.len() as int;
    let z = rms_rows(x, n.weight@, n.eps, rows);
    assert forall|r: int| 0 <= r < rows implies is_rms_normed(
        n,
        row_of(x, r, d),
        #[trigger] row_of(z, r, d),
    ) by {
        lemma_row(r, rows, d);
        let row = row_of(x, r, d);
        norms_divide_by_the_root_mean_square(n, row);
        assert forall|i: int| 0 <= i < d implies row_of(z, r, d)[i] == n.image(row)[i] by {
            let t = r * d + i;
            assert(t / d == r && t % d == i) by (nonlinear_arith)
                requires
                    t == r * d + i,
                    0 <= i < d,
                    0 <= r,
            ;
            assert(0 <= t < rows * d);
        }
        assert(row_of(z, r, d) =~= n.image(row));
    }
}

/// Every row is turned by the angles of its place.
pub open spec fn are_turned<M: Math>(
    m: &M,
    rope: Rope,
    x: Seq<F32>,
    rows: int,
    heads: int,
    y: Seq<F32>,
) -> bool {
    let w = heads * rope.head_dim;
    forall|r: int|
        0 <= r < rows ==> is_turned(
            m,
            row_of(x, r, w),
            #[trigger] row_of(y, r, w),
            heads,
            rope.head_dim as int,
            rope.rope_dim,
            r,
            rope.base,
            rope.kind,
        )
}

proof fn lemma_turned<M: Math>(
    m: &M,
    rope: Rope,
    x: Seq<F32>,
    rows: int,
    heads: int,
    y: Seq<F32>,
)
    requires
        rope.turns_rows(m, x, y, heads, rows, false),
        x.len() == rows * (heads * rope.head_dim),
        rope.rope_dim <= rope.head_dim,
        rope.rope_dim % 2 == 0,
        heads >= 0,
        0 <= rows <= 0x10_0000,
    ensures
        are_turned(m, rope, x, rows, heads, y),
{
    let hd = rope.head_dim as int;
    let w = heads * hd;
    assert(w >= 0) by (nonlinear_arith)
        requires
            w == heads * hd,
            heads >= 0,
            hd >= 0,
    ;
    assert forall|r: int| 0 <= r < rows implies is_turned(
        m,
        row_of(x, r, w),
        #[trigger] row_of(y, r, w),
        heads,
        hd,
        rope.rope_dim,
        r,
        rope.base,
        rope.kind,
    ) by {
        lemma_row(r, rows, w);
        let (a, b) = (row_of(x, r, w), row_of(y, r, w));
        assert(rope.turns(m, a, b, heads, r as usize, false));
        let (sines, cosines) = choose|sines: Seq<F32>, cosines: Seq<F32>| #[trigger]
            are_angles(m, sines, cosines, heads, rope.rope_dim, r as usize, rope.base)
                && b == turned(a, sines, cosines, hd, rope.rope_dim as int, rope.kind);
        assert(rope_via(
            m,
            a,
            b,
            sines,
            cosines,
            heads,
            hd,
            rope.rope_dim,
            r as usize,
            rope.base,
            rope.kind,
        ));
        assert(is_rope(m, a, b, heads, hd, rope.rope_dim, r as usize, rope.base, rope.kind));
        pairs_turn_by_the_angles_of_their_position(
            m,
            a,
            b,
            heads,
            hd,
            rope.rope_dim,
            r as usize,
            rope.base,
            rope.kind,
        );
    }
}

/// Head `u % n_heads` of row `u / n_heads` attends by scaled products over the rows up to
/// its own.
pub open spec fn attends_up_to<M: Math>(m: &M, a: Attention, c: AttnCache, u: int) -> bool {
    let (n, hd) = (a.n_heads as int, a.head_dim as int);
    let group = n / (a.n_kv_heads as int);
    attends_by_products(
        m,
        c.q@,
        u * hd,
        c.k@,
        c.v@,
        ((u % n) / group) * hd,
        a.n_kv_heads * hd,
        hd,
        u / n + 1,
        u / n + 1,
        c.probs@[u]@,
        c.ctx@.subrange(u * hd, u * hd + hd),
    )
}

/// Attention on the rows `z`: queries and keys, turned, and values are images of the rows,
/// and every head attends over the rows up to its own.
pub open spec fn is_attended<M: Math>(
    m: &M,
    a: Attention,
    rope: Rope,
    z: Seq<F32>,
    rows: int,
    c: AttnCache,
    uq: Seq<F32>,
    uk: Seq<F32>,
) -> bool {
    &&& is_layer_output(a.wq, z, rows, uq)
    &&& is_layer_output(a.wk, z, rows, uk)
    &&& is_layer_output(a.wv, z, rows, c.v@)
    &&& are_turned(m, rope, uq, rows, a.n_heads as int, c.q@)
    &&& are_turned(m, rope, uk, rows, a.n_kv_heads as int, c.k@)
    &&& forall|u: int| 0 <= u < rows * a.n_heads ==> #[trigger] attends_up_to(m, a, c, u)
}

/// Hidden element `i` of gates and values: the element times its sigmoid times the value,
/// and times its factor where some are dropped.
pub open spec fn is_hidden_part<M: Math>(
    m: &M,
    c: FfnCache,
    dropout: F32,
    i: int,
    s: F32,
    p: F32,
) -> bool {
    &&& is_sigmoid(m, c.g@[i], s)
    &&& is_triple(p, c.g@[i], s, c.u@[i])
    &&& if (F32 { bits: 0 }).lt_spec(dropout) {
        let exact = p.units() * c.mask->0@[i].units();
        c.mask is Some && (c.h@[i].finite_spec() ==> size(c.h@[i].units() * unit() - exact)
            * 0x100_0000 <= size(exact) + 0x80_0000 * unit())
    } else {
        c.h@[i] == p
    }
}

/// Hidden element `i` follows from its gate and value.
pub open spec fn follows<M: Math>(m: &M, c: FfnCache, dropout: F32, i: int) -> bool {
    exists|s: F32, p: F32| #[trigger] is_hidden_part(m, c, dropout, i, s, p)
}

/// A block on all rows: attention on the normed rows is added to the rows, and the
/// feed-forward part on the normed sums to the sums.
pub open spec fn is_trained_block<M: Math>(
    m: &M,
    b: LlamaBlock,
    rope: Rope,
    x: Seq<F32>,
    rows: int,
    dropout: F32,
    c: BlockCache,
    z1: Seq<F32>,
    uq: Seq<F32>,
    uk: Seq<F32>,
    o: Seq<F32>,
    z2: Seq<F32>,
    f: Seq<F32>,
    y: Seq<F32>,
) -> bool {
    &&& are_rms_normed(b.attn_norm, x, rows, z1)
    &&& is_attended(m, b.attn, rope, z1, rows, c.attn, uq, uk)
    &&& is_layer_output(b.attn.wo, c.attn.ctx@, rows, o)
    &&& is_row_sum(x, o, c.h@)
    &&& are_rms_normed(b.ffn_norm, c.h@, rows, z2)
    &&& is_layer_output(b.ffn.gate, z2, rows, c.ffn.g@)
    &&& is_layer_output(b.ffn.up, z2, rows, c.ffn.u@)
    &&& forall|i: int| 0 <= i < c.ffn.h@.len() ==> #[trigger] follows(m, c.ffn, dropout, i)
    &&& is_layer_output(b.ffn.down, c.ffn.h@, rows, f)
    &&& is_row_sum(c.h@, f, y)
}

proof fn lemma_attended<M: Math>(
    m: &M,
    a: Attention,
    rope: Rope,
    z: Seq<F32>,
    rows: int,
    c: AttnCache,
)
    requires
        attn_forwarded(m, a, rope, z, rows, c),
        a.fits(),
        rope.rope_dim <= rope.head_dim,
        rope.rope_dim % 2 == 0,
        rope.head_dim == a.head_dim,
        0 <= rows < 0x10_0000,
        a.head_dim <= 0x10_0000,
        a.wq.in_f <= 0x10_0000,
        a.wk.in_f <= 0x10_0000,
        a.wv.in_f <= 0x10_0000,
        a.wq.out_f == a.n_heads * a.head_dim,
        a.wk.out_f == a.n_kv_heads * a.head_dim,
    ensures
        is_attended(m, a, rope, z, rows, c, affine(a.wq, z, rows), affine(a.wk, z, rows)),
{
    lemma_output(a.wq, z, rows);
    lemma_output(a.wk, z, rows);
    lemma_output(a.wv, z, rows);
    lemma_turned(m, rope, affine(a.wq, z, rows), rows, a.n_heads as int, c.q@);
    lemma_turned(m, rope, affine(a.wk, z, rows), rows, a.n_kv_heads as int, c.k@);
    assert forall|u: int| 0 <= u < rows * a.n_heads implies #[trigger] attends_up_to(m, a, c, u) by {
        let n = a.n_heads as int;
        assert(unit_attends(m, a, c.q@, c.k@, c.v@, c.probs@[u]@, c.ctx@, u));
        assert(0 <= u / n < rows) by (nonlinear_arith)
            requires
                0 <= u < rows * n,
                n >= 0,
        ;
        trained_heads_attend_by_products(m, a, c.q@, c.k@, c.v@, c.probs@[u]@, c.ctx@, u);
    }
}

/// Training takes all rows through a block as decoding takes one: what attention makes of
/// the normed rows is added to them, and so is what the feed-forward part makes of the normed
/// sums, some of its hidden elements dropped.
pub proof fn training_takes_rows_through_blocks<M: Math>(
    m: &M,
    b: LlamaBlock,
    rope: Rope,
    x: Seq<F32>,
    rows: int,
    dropout: F32,
    seed: u64,
    c: BlockCache,
)
    requires
        block_forwarded(m, b, rope, b.attn_norm.eps, x, rows, dropout, seed, c),
        b.fits(),
        b.ffn_norm.eps == b.attn_norm.eps,
        rope.rope_dim <= rope.head_dim,
        rope.rope_dim % 2 == 0,
        rope.head_dim == b.attn.head_dim,
        0 <= rows < 0x10_0000,
        x.len() == rows * b.dim(),
        b.dim() <= 0x10_0000,
        b.attn.head_dim <= 0x10_0000,
        b.attn.n_heads * b.attn.head_dim <= 0x10_0000,
        b.ffn.gate.out_f <= 0x10_0000,
    ensures
        exists|
            z1: Seq<F32>,
            uq: Seq<F32>,
            uk: Seq<F32>,
            o: Seq<F32>,
            z2: Seq<F32>,
            f: Seq<F32>,
        | #[trigger]
            is_trained_block(
                m,
                b,
                rope,
                x,
                rows,
                dropout,
                c,
                z1,
                uq,
                uk,
                o,
                z2,
                f,
                block_out(b, c, rows),
            ),
{
    reveal(block_forwarded);
    let eps = b.attn_norm.eps;
    let z1 = rms_rows(x, b.attn_norm.weight@, eps, rows);
    let z2 = rms_rows(c.h@, b.ffn_norm.weight@, eps, rows);
    let (uq, uk) = (affine(b.attn.wq, z1, rows), affine(b.attn.wk, z1, rows));
    let o = affine(b.attn.wo, c.attn.ctx@, rows);
    let f = affine(b.ffn.down, c.ffn.h@, rows);
    lemma_normed(b.attn_norm, x, rows);
    lemma_attended(m, b.attn, rope, z1, rows, c.attn);
    lemma_output(b.attn.wo, c.attn.ctx@, rows);
    lemma_rows_add(x, o);
    lemma_normed(b.ffn_norm, c.h@, rows);
    lemma_output(b.ffn.gate, z2, rows);
    lemma_output(b.ffn.up, z2, rows);
    lemma_output(b.ffn.down, c.ffn.h@, rows);
    lemma_rows_add(c.h@, f);
    let k = c.ffn;
    assert(ffn_forwarded(m, b.ffn, z2, rows, dropout, seed, k));
    assert forall|i: int| 0 <= i < k.h@.len() implies #[trigger] follows(m, k, dropout, i) by {
        let p = if is_masked(dropout) {
            assert(is_masked_hidden(m, k.g@[i], k.u@[i], k.mask->0@[i], k.h@[i]));
            choose|p: F32| #[trigger]
                is_hidden(m, k.g@[i], k.u@[i], p) && k.h@[i] == p.mul_spec(k.mask->0@[i])
        } else {
            k.h@[i]
        };
        assert(is_hidden(m, k.g@[i], k.u@[i], p));
        let w = choose|w: F32| #[trigger] is_swish(m, k.g@[i], w) && p == w.mul_spec(k.u@[i]);
        let s = choose|s: F32| #[trigger] is_sigmoid(m, k.g@[i], s) && w == k.g@[i].mul_spec(s);
        lemma_triple(k.g@[i], s, k.u@[i]);
        if is_masked(dropout) && k.h@[i].finite_spec() {
            lemma_mul_parts(p, k.mask->0@[i]);
            lemma_mul_miss(p, k.mask->0@[i]);
        }
        assert(is_hidden_part(m, k, dropout, i, s, p));
    }
    assert(is_trained_block(
        m,
        b,
        rope,
        x,
        rows,
        dropout,
        c,
        z1,
        uq,
        uk,
        o,
        z2,
        f,
        block_out(b, c, rows),
    ));
}

} // verus!
