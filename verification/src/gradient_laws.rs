//! What the backward pass computes: gradients of layers are sums of products with what went
//! in, those of scores cancel over a row, and each sum hands its gradient on; all up to
//! rounding.
use crate::adam_laws::lemma_two_products;
use crate::float::F32;
use crate::float_errors::{
    lemma_add_miss, lemma_mul_miss, lemma_size_product, lemma_sub_miss, lemma_unit, lemma_value,
    size, unit,
};
use crate::index::{cell, lemma_cell};
use crate::layer::Linear;
use crate::llm::Attention;
use crate::ops::{dot, sum_of};
use crate::softmax_shares::exact_sum;
use crate::sum_errors::{
    dot_products_are_sums_of_products, exact_dot, exact_dot_sizes, exact_sizes, lemma_add_parts,
    lemma_mul_parts, lemma_sub_parts, near_dot,
};
use crate::train_attention::{
    products, query_gradients, score_gradients, seen_sum, weight_gradients,
};
use crate::train_model::token_sum;
use crate::train_ops::{affine_db, affine_dw, affine_dx, bias_sum, weight_sum};
use vstd::prelude::*;

verus! {

// ---------------------------------------------------------------------------
// Sums
// ---------------------------------------------------------------------------

/// Numbers that are added to a first one, one after the other.
pub open spec fn added(init: F32, s: Seq<F32>) -> F32
    decreases s.len(),
{
    if s.len() == 0 {
        init
    } else {
        added(init, s.drop_last()).add_spec(s.last())
    }
}

/// `v` is the first number and the sum of the others, up to rounding.
pub open spec fn is_added(v: F32, init: F32, s: Seq<F32>) -> bool {
    v.finite_spec() ==> size(v.units() - (init.units() + exact_sum(s))) * 0x80_0000 <= s.len() * (size(
        init.units(),
    ) + exact_sizes(s))
}

/// One more number.
proof fn lemma_one_more(w: int, v: int, e: int, z: int, g: int, n: int)
    requires
        0 < n <= 0x10_0000,
        size(e) <= z,
        size(v - e) * 0x80_0000 <= (n - 1) * z,
        size(w - (v + g)) * 0x100_0000 <= size(v + g),
    ensures
        size(w - (e + g)) * 0x80_0000 <= n * (z + size(g)),
{
    let (k, sg) = ((n - 1) * z, size(g));
    let m = n * (z + sg);
    assert(m >= k + z + sg && 0 <= k <= 0x10_0000 * z) by (nonlinear_arith)
        requires
            m == n * (z + sg),
            k == (n - 1) * z,
            1 <= n <= 0x10_0000,
            z >= 0,
            sg >= 0,
    ;
}

/// Numbers that are added one after the other are added up, to rounding.
pub proof fn numbers_are_added_up(init: F32, s: Seq<F32>)
    requires
        s.len() <= 0x10_0000,
    ensures
        is_added(added(init, s), init, s),
        size(exact_sum(s)) <= exact_sizes(s),
    decreases s.len(),
{
    if s.len() > 0 {
        let t = s.drop_last();
        numbers_are_added_up(init, t);
        let (v, g) = (added(init, t), s.last());
        let w = added(init, s);
        if w.finite_spec() {
            lemma_add_parts(v, g);
            lemma_add_miss(v, g);
            lemma_one_more(
                w.units(),
                v.units(),
                init.units() + exact_sum(t),
                size(init.units()) + exact_sizes(t),
                g.units(),
                s.len() as int,
            );
        }
    }
}

/// Products over equal numbers are equal.
proof fn lemma_same_dot(init: F32, a: Seq<F32>, b: Seq<F32>, c: Seq<F32>, d: Seq<F32>, n: nat)
    requires
        forall|i: int| 0 <= i < n ==> #[trigger] a[i] == c[i],
        forall|i: int| 0 <= i < n ==> #[trigger] b[i] == d[i],
    ensures
        dot(init, a, 0, b, 0, 1, n) == dot(init, c, 0, d, 0, 1, n),
    decreases n,
{
    if n > 0 {
        lemma_same_dot(init, a, b, c, d, (n - 1) as nat);
        assert(a[n - 1] == c[n - 1] && b[n - 1] == d[n - 1]);
    }
}

// ---------------------------------------------------------------------------
// Layers
// ---------------------------------------------------------------------------

/// Column `j` of rows of `c` numbers.
pub open spec fn column_of(x: Seq<F32>, j: int, c: int, rows: int) -> Seq<F32> {
    Seq::new(rows as nat, |r: int| x[cell(r, j, c)])
}

/// The gradient of an input is the sum of the gradients of the outputs, each times the
/// weight that leads there.
pub proof fn input_gradients_weigh_output_gradients(l: Linear, dy: Seq<F32>, rows: int, r: int, i: int)
    requires
        0 <= r < rows,
        0 <= i < l.in_f,
        l.out_f <= 0x10_0000,
    ensures
        ({
            let (k, n) = (l.in_f as int, l.out_f as int);
            let g = affine_dx(l, dy, rows)[cell(r, i, k)];
            g.finite_spec() ==> near_dot(
                F32 { bits: 0 },
                dy,
                r * n,
                l.weight.data@,
                i * n,
                1,
                n as nat,
                g,
            )
        }),
{
    let (k, n) = (l.in_f as int, l.out_f as int);
    lemma_cell(r, i, rows, k);
    let t = cell(r, i, k);
    assert(t / k == r && t % k == i) by (nonlinear_arith)
        requires
            t == r * k + i,
            0 <= i < k,
            0 <= r,
    ;
    let zero = F32 { bits: 0 };
    let g = affine_dx(l, dy, rows)[t];
    assert(g == dot(zero, dy, r * n, l.weight.data@, i * n, 1, n as nat));
    if g.finite_spec() {
        dot_products_are_sums_of_products(zero, dy, r * n, l.weight.data@, i * n, 1, n as nat);
    }
}

proof fn lemma_weight_sum(
    init: F32,
    x: Seq<F32>,
    i: int,
    k: int,
    dy: Seq<F32>,
    o: int,
    n: int,
    r: nat,
    rows: int,
)
    requires
        r <= rows,
    ensures
        weight_sum(init, x, i, k, dy, o, n, r) == dot(
            init,
            column_of(x, i, k, rows),
            0,
            column_of(dy, o, n, rows),
            0,
            1,
            r,
        ),
    decreases r,
{
    if r > 0 {
        lemma_weight_sum(init, x, i, k, dy, o, n, (r - 1) as nat, rows);
    }
}

/// The gradient of a weight grows by the sum over the rows of the input times the gradient
/// of the output that the weight joins.
pub proof fn weight_gradients_join_inputs_and_outputs(
    l: Linear,
    x: Seq<F32>,
    dy: Seq<F32>,
    rows: int,
    w: Seq<F32>,
    i: int,
    o: int,
)
    requires
        0 <= i < l.in_f,
        0 <= o < l.out_f,
        0 <= rows <= 0x10_0000,
    ensures
        ({
            let (k, n) = (l.in_f as int, l.out_f as int);
            let g = affine_dw(l, x, dy, rows, w)[cell(i, o, n)];
            g.finite_spec() ==> near_dot(
                w[cell(i, o, n)],
                column_of(x, i, k, rows),
                0,
                column_of(dy, o, n, rows),
                0,
                1,
                rows as nat,
                g,
            )
        }),
{
    let (k, n) = (l.in_f as int, l.out_f as int);
    lemma_cell(i, o, k, n);
    let t = cell(i, o, n);
    assert(t / n == i && t % n == o) by (nonlinear_arith)
        requires
            t == i * n + o,
            0 <= o < n,
            0 <= i,
    ;
    lemma_weight_sum(w[t], x, i, k, dy, o, n, rows as nat, rows);
    let g = affine_dw(l, x, dy, rows, w)[t];
    if g.finite_spec() {
        dot_products_are_sums_of_products(
            w[t],
            column_of(x, i, k, rows),
            0,
            column_of(dy, o, n, rows),
            0,
            1,
            rows as nat,
        );
    }
}

proof fn lemma_bias_sum(init: F32, dy: Seq<F32>, o: int, n: int, r: nat)
    ensures
        bias_sum(init, dy, o, n, r) == added(init, column_of(dy, o, n, r as int)),
    decreases r,
{
    if r > 0 {
        lemma_bias_sum(init, dy, o, n, (r - 1) as nat);
        let s = column_of(dy, o, n, r as int);
        assert(s.drop_last() =~= column_of(dy, o, n, r - 1));
    }
}

/// The gradient of a bias grows by the sum over the rows of the gradient of its output.
pub proof fn bias_gradients_add_up_the_outputs(
    l: Linear,
    dy: Seq<F32>,
    rows: int,
    b: Seq<F32>,
    o: int,
)
    requires
        0 <= o < l.out_f,
        0 <= rows <= 0x10_0000,
    ensures
        is_added(
            affine_db(l, dy, rows, b)[o],
            b[o],
            column_of(dy, o, l.out_f as int, rows),
        ),
{
    lemma_bias_sum(b[o], dy, o, l.out_f as int, rows as nat);
    numbers_are_added_up(b[o], column_of(dy, o, l.out_f as int, rows));
}

// ---------------------------------------------------------------------------
// Tokens
// ---------------------------------------------------------------------------

/// The numbers of channel `j` in the rows of token `id`, among the first `n` rows.
pub open spec fn rows_of_token(
    tokens: Seq<usize>,
    id: int,
    dx: Seq<F32>,
    j: int,
    d: int,
    n: nat,
) -> Seq<F32>
    decreases n,
{
    if n == 0 {
        Seq::empty()
    } else {
        let before = rows_of_token(tokens, id, dx, j, d, (n - 1) as nat);
        if tokens[n - 1] == id {
            before.push(dx[(n - 1) * d + j])
        } else {
            before
        }
    }
}

/// The gradient of the vector of a token grows by those of all rows of the token.
pub proof fn tokens_add_up_the_gradients_of_their_rows(
    init: F32,
    tokens: Seq<usize>,
    dx: Seq<F32>,
    id: int,
    j: int,
    d: int,
    n: nat,
)
    requires
        0 <= id,
        0 <= j < d,
        n <= 0x10_0000,
    ensures
        is_added(
            token_sum(init, tokens, dx, id * d + j, d, n),
            init,
            rows_of_token(tokens, id, dx, j, d, n),
        ),
{
    lemma_token_sum(init, tokens, dx, id, j, d, n);
    numbers_are_added_up(init, rows_of_token(tokens, id, dx, j, d, n));
}

proof fn lemma_token_sum(
    init: F32,
    tokens: Seq<usize>,
    dx: Seq<F32>,
    id: int,
    j: int,
    d: int,
    n: nat,
)
    requires
        0 <= id,
        0 <= j < d,
    ensures
        token_sum(init, tokens, dx, id * d + j, d, n) == added(
            init,
            rows_of_token(tokens, id, dx, j, d, n),
        ),
        rows_of_token(tokens, id, dx, j, d, n).len() <= n,
    decreases n,
{
    let e = id * d + j;
    assert(e / d == id && e % d == j) by (nonlinear_arith)
        requires
            e == id * d + j,
            0 <= j < d,
            0 <= id,
    ;
    if n > 0 {
        lemma_token_sum(init, tokens, dx, id, j, d, (n - 1) as nat);
        let before = rows_of_token(tokens, id, dx, j, d, (n - 1) as nat);
        if tokens[n - 1] == id {
            assert(before.push(dx[(n - 1) * d + j]).drop_last() =~= before);
        }
    }
}

// ---------------------------------------------------------------------------
// Attention
// ---------------------------------------------------------------------------

proof fn lemma_mean_is_dot(p: Seq<F32>, dp: Seq<F32>, n: nat)
    requires
        n <= p.len(),
    ensures
        sum_of(products(p, dp).take(n as int)) == dot(
            sum_of(Seq::<F32>::empty()),
            p,
            0,
            dp,
            0,
            1,
            n,
        ),
    decreases n,
{
    let s = products(p, dp).take(n as int);
    if n > 0 {
        lemma_mean_is_dot(p, dp, (n - 1) as nat);
        assert(s.drop_last() =~= products(p, dp).take(n - 1));
        assert(s.last() == p[n - 1].mul_spec(dp[n - 1]));
    } else {
        assert(s =~= Seq::<F32>::empty());
    }
}

/// `g` is the gradient of a score: its weight, times how far the gradient of the weight lies
/// above `mean`, times the scale.
pub open spec fn is_score_gradient_about(g: F32, p: F32, dp: F32, scale: F32, mean: int) -> bool {
    let one = unit();
    let d = dp.units() - mean;
    let exact = (p.units() * d) * scale.units();
    size(g.units() * (one * one) - exact) * 0x20_0000 <= size(exact) + 0x20_0000 * (size(scale.units())
        * one) + 0x20_0000 * (one * one)
}

/// `mean` is the mean of the numbers `dp` under the weights `p`.
pub open spec fn is_mean_under(mean: int, p: Seq<F32>, dp: Seq<F32>) -> bool {
    let one = unit();
    let n = p.len() as int;
    size(mean * one - exact_dot(p, 0, dp, 0, 1, n as nat)) * 0x40_0000 <= n * exact_dot_sizes(
        p,
        0,
        dp,
        0,
        1,
        n as nat,
    ) + n * (0x40_0000 * one)
}

#[verifier::rlimit(60)]
#[verifier::spinoff_prover]
proof fn lemma_about(g: int, p: int, d: int, e: int, c: int, one: int)
    requires
        size(e - d) * 0x100_0000 <= size(d),
        size(g * (one * one) - (p * e) * c) * 0x40_0000 <= size((p * e) * c) + 0x40_0000 * (size(c)
            * one) + 0x40_0000 * (one * one),
    ensures
        size(g * (one * one) - (p * d) * c) * 0x20_0000 <= size((p * d) * c) + 0x20_0000 * (size(c)
            * one) + 0x20_0000 * (one * one),
{
    let h = e - d;
    let pc = p * c;
    lemma_size_product(h, pc);
    lemma_size_product(d, pc);
    let (sh, sd, sp) = (size(h), size(d), size(pc));
    assert((p * e) * c == e * pc && (p * d) * c == d * pc && h * pc == e * pc - d * pc)
        by (nonlinear_arith)
        requires
            pc == p * c,
            h == e - d,
    ;
    assert((sh * sp) * 0x100_0000 <= sd * sp) by (nonlinear_arith)
        requires
            sh * 0x100_0000 <= sd,
            sp >= 0,
    ;
    let (a, b) = (size(c) * one, one * one);
    assert(b >= 0) by (nonlinear_arith)
        requires
            b == one * one,
    ;
}

/// The gradients of the scores of a row follow from those of its weights: each weight,
/// times how far its gradient lies above their mean under the weights, times the scale.
pub proof fn score_gradients_are_weighed_about_their_mean(
    p: Seq<F32>,
    dp: Seq<F32>,
    scale: F32,
    j: int,
)
    requires
        0 <= j < p.len() <= 0x10_0000,
        score_gradients(p, dp, scale)[j].finite_spec(),
    ensures
        exists|mean: int| #[trigger]
            is_mean_under(mean, p, dp) && is_score_gradient_about(
                score_gradients(p, dp, scale)[j],
                p[j],
                dp[j],
                scale,
                mean,
            ),
{
    lemma_unit();
    let n = p.len();
    let one = unit();
    let mean = sum_of(products(p, dp));
    let g = score_gradients(p, dp, scale)[j];
    let d = dp[j].sub_spec(mean);
    let t = p[j].mul_spec(d);
    lemma_mul_parts(t, scale);
    lemma_mul_parts(p[j], d);
    lemma_sub_parts(dp[j], mean);
    lemma_sub_miss(dp[j], mean);
    lemma_mul_miss(p[j], d);
    lemma_mul_miss(t, scale);
    assert(products(p, dp).take(n as int) =~= products(p, dp));
    lemma_mean_is_dot(p, dp, n);
    let init = sum_of(Seq::<F32>::empty());
    dot_products_are_sums_of_products(init, p, 0, dp, 0, 1, n);
    lemma_value(init);
    assert(init.units() == 0);
    assert(0 * one == 0) by (nonlinear_arith);
    lemma_two_products(p[j].units(), d.units(), scale.units(), t.units(), g.units(), one);
    lemma_about(
        g.units(),
        p[j].units(),
        dp[j].units() - mean.units(),
        d.units(),
        scale.units(),
        one,
    );
    assert(is_mean_under(mean.units(), p, dp));
}

/// The gradient of a weight of head `h` at position `t` is the product of the gradient of
/// what the head mixed and the value of position `j`; query heads share the values in
/// groups.
pub proof fn weights_have_the_products_with_values_for_gradients(
    a: Attention,
    v: Seq<F32>,
    dctx: Seq<F32>,
    t: int,
    h: int,
    j: int,
)
    requires
        0 <= h < a.n_heads,
        0 <= j <= t,
        a.head_dim <= 0x10_0000,
    ensures
        ({
            let u = t * a.n_heads + h;
            let hd = a.head_dim as int;
            let group = a.n_heads as int / (a.n_kv_heads as int);
            let g = weight_gradients(a, v, dctx, u)[j];
            g.finite_spec() ==> near_dot(
                F32 { bits: 0 },
                dctx,
                u * hd,
                v,
                j * (a.n_kv_heads * hd) + (h / group) * hd,
                1,
                hd as nat,
                g,
            )
        }),
{
    let n = a.n_heads as int;
    let u = t * n + h;
    let hd = a.head_dim as int;
    let zero = F32 { bits: 0 };
    lemma_unit_place(t, h, n);
    let b0 = j * a.kv_dim() + a.kv_head(h) * hd;
    let g = weight_gradients(a, v, dctx, u)[j];
    assert(g == dot(zero, dctx, u * hd, v, b0, 1, hd as nat));
    if g.finite_spec() {
        dot_products_are_sums_of_products(zero, dctx, u * hd, v, b0, 1, hd as nat);
    }
}

proof fn lemma_unit_place(t: int, h: int, n: int)
    requires
        0 <= h < n,
        0 <= t,
    ensures
        (t * n + h) / n == t,
        (t * n + h) % n == h,
{
    let u = t * n + h;
    assert(u / n == t && u % n == h) by (nonlinear_arith)
        requires
            u == t * n + h,
            0 <= h < n,
            0 <= t,
    ;
}

/// The gradient of element `c` of the query of head `h` at position `t` is the sum over the
/// positions up to `t` of the gradients of the scores, each times its key.
pub proof fn queries_add_up_the_keys_they_met(
    a: Attention,
    k: Seq<F32>,
    ds: Seq<Seq<F32>>,
    t: int,
    h: int,
    c: int,
)
    requires
        0 <= h < a.n_heads,
        0 <= c < a.head_dim,
        0 <= t <= 0xf_ffff,
        t * a.n_heads + h < ds.len(),
    ensures
        ({
            let u = t * a.n_heads + h;
            let hd = a.head_dim as int;
            let group = a.n_heads as int / (a.n_kv_heads as int);
            let g = query_gradients(a, k, ds)[u * hd + c];
            g.finite_spec() ==> near_dot(
                F32 { bits: 0 },
                ds[u],
                0,
                k,
                (h / group) * hd + c,
                a.n_kv_heads * hd,
                (t + 1) as nat,
                g,
            )
        }),
{
    let n = a.n_heads as int;
    let u = t * n + h;
    let hd = a.head_dim as int;
    lemma_unit_place(t, h, n);
    lemma_unit_place(u, c, hd);
    let e = u * hd + c;
    assert(0 <= t * n) by (nonlinear_arith)
        requires
            t >= 0,
            n >= 0,
    ;
    assert(e < ds.len() * hd && e >= 0) by (nonlinear_arith)
        requires
            e == u * hd + c,
            0 <= u,
            u + 1 <= ds.len(),
            0 <= c < hd,
    ;
    let zero = F32 { bits: 0 };
    let b0 = a.kv_head(h) * hd + c;
    let g = query_gradients(a, k, ds)[e];
    assert(g == dot(zero, ds[u], 0, k, b0, a.kv_dim(), (t + 1) as nat));
    if g.finite_spec() {
        dot_products_are_sums_of_products(zero, ds[u], 0, k, b0, a.kv_dim(), (t + 1) as nat);
    }
}

/// Whether head `u % n_heads` at position `u / n_heads` meets position `s` of key-value head
/// `kv`: the position is not ahead, and the head is in the group.
pub open spec fn meets(a: Attention, u: int, s: int, kv: int) -> bool {
    let n = a.n_heads as int;
    let group = n / (a.n_kv_heads as int);
    s <= u / n && kv == (u % n) / group
}

/// The factors of the first `n` units that meet a position of a key-value head, and their
/// elements of channel `c`.
pub open spec fn met(
    a: Attention,
    f: Seq<Seq<F32>>,
    x: Seq<F32>,
    s: int,
    kv: int,
    c: int,
    n: nat,
) -> (Seq<F32>, Seq<F32>)
    decreases n,
{
    if n == 0 {
        (Seq::empty(), Seq::empty())
    } else {
        let before = met(a, f, x, s, kv, c, (n - 1) as nat);
        if meets(a, n - 1, s, kv) {
            (before.0.push(f[n - 1][s]), before.1.push(x[(n - 1) * a.head_dim + c]))
        } else {
            before
        }
    }
}

proof fn lemma_met(
    a: Attention,
    f: Seq<Seq<F32>>,
    x: Seq<F32>,
    s: int,
    kv: int,
    c: int,
    n: nat,
)
    requires
        0 <= s,
        0 <= kv < a.n_kv_heads,
        0 <= c < a.head_dim,
    ensures
        ({
            let l = met(a, f, x, s, kv, c, n);
            let e = s * (a.n_kv_heads * a.head_dim) + kv * a.head_dim + c;
            &&& l.0.len() == l.1.len() <= n
            &&& seen_sum(a, f, x, e, n) == dot(F32 { bits: 0 }, l.0, 0, l.1, 0, 1, l.0.len())
        }),
    decreases n,
{
    let hd = a.head_dim as int;
    let d = a.n_kv_heads * hd;
    let o = kv * hd + c;
    let e = s * d + kv * hd + c;
    assert(0 <= o < d) by (nonlinear_arith)
        requires
            o == kv * hd + c,
            d == a.n_kv_heads * hd,
            0 <= kv,
            kv + 1 <= a.n_kv_heads,
            0 <= c < hd,
    ;
    lemma_unit_place(s, o, d);
    lemma_unit_place(kv, c, hd);
    if n > 0 {
        lemma_met(a, f, x, s, kv, c, (n - 1) as nat);
        let before = met(a, f, x, s, kv, c, (n - 1) as nat);
        let l = met(a, f, x, s, kv, c, n);
        assert(e / a.kv_dim() == s && e % a.kv_dim() == o && o / hd == kv && o % hd == c);
        if meets(a, n - 1, s, kv) {
            let k = before.0.len();
            assert(l.0.len() == k + 1);
            lemma_same_dot(F32 { bits: 0 }, before.0, before.1, l.0, l.1, k);
            assert(cell(n - 1, c, hd) == (n - 1) * hd + c);
        }
    }
}

/// Element `c` of a key or value takes up the factors of all heads that met it, each times
/// the element of the head: the query for a key, the gradient of what was mixed for a value.
pub proof fn keys_and_values_add_up_the_heads_that_met_them(
    a: Attention,
    f: Seq<Seq<F32>>,
    x: Seq<F32>,
    s: int,
    kv: int,
    c: int,
)
    requires
        0 <= s,
        0 <= kv < a.n_kv_heads,
        0 <= c < a.head_dim,
        f.len() <= 0x10_0000,
    ensures
        ({
            let l = met(a, f, x, s, kv, c, f.len());
            let e = s * (a.n_kv_heads * a.head_dim) + kv * a.head_dim + c;
            let g = seen_sum(a, f, x, e, f.len());
            g.finite_spec() ==> near_dot(F32 { bits: 0 }, l.0, 0, l.1, 0, 1, l.0.len(), g)
        }),
{
    lemma_met(a, f, x, s, kv, c, f.len());
    let l = met(a, f, x, s, kv, c, f.len());
    let e = s * (a.n_kv_heads * a.head_dim) + kv * a.head_dim + c;
    if seen_sum(a, f, x, e, f.len()).finite_spec() {
        dot_products_are_sums_of_products(F32 { bits: 0 }, l.0, 0, l.1, 0, 1, l.0.len());
    }
}

} // verus!
