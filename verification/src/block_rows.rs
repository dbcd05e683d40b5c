//! Rows of a transformer block: fed one by one through a cache they give what the
//! whole sequence gives, and later rows do not change earlier ones.
use crate::attention::{
    head_scale_of, lemma_zero_quotient, mix_of, scores_of, MASKED_BITS,
};
use crate::float::{
    lemma_code, lemma_magnitude_increases, lemma_round_exact, lemma_round_exists, nan, F32,
};
use crate::index::{cell, lemma_cell, lemma_row};
use crate::int8_grid::lemma_zero_product;
use crate::layer::{norm_row, KvCache, LayerNorm, Linear};
use crate::math::{is_exp, Math};
use crate::ops::{dot, is_softmax, max_of, product_at, row_of, scaled_row, softmax_via, sum_of};
use crate::quant::all_finite;
use crate::rounding::lemma_round_at_least;
use crate::tensor::Tensor;
use crate::transformer::{head_part, is_relu, is_sum, BlockTrace, TransformerBlock};
use vstd::arithmetic::power2::lemma2_to64;
use vstd::prelude::*;

verus! {

// ---------------------------------------------------------------------------
// Sums that begin at zero
// ---------------------------------------------------------------------------

/// What a sum that begins at zero can be: not negative zero, and the one
/// not-a-number that operations return.
spec fn is_settled(x: F32) -> bool {
    x == nan() || (!x.nan_spec() && x.bits != 0x8000_0000)
}

proof fn lemma_zero_units(x: F32)
    requires
        x.finite_spec(),
    ensures
        x.mag() >= 0,
        x.mag() == 0 <==> x.zero_spec(),
{
    lemma_code(0, 0);
    lemma2_to64();
    if x.code_spec() > 0 {
        lemma_magnitude_increases(0, x.code_spec());
    }
}

/// A sum stays settled.
proof fn lemma_add_settled(a: F32, b: F32)
    requires
        is_settled(a),
    ensures
        is_settled(a.add_spec(b)),
{
    reveal(F32::add_spec);
    if a.finite_spec() && b.finite_spec() {
        lemma_zero_units(a);
        lemma_zero_units(b);
        lemma_code(0, 0);
        lemma_code(1, 0);
        lemma2_to64();
        let s = a.units() + b.units();
        let n = if s < 0 {
            -s
        } else {
            s
        };
        if n > 0 {
            lemma_round_at_least(n, 1);
            lemma_round_exists(n, 1);
        }
    }
}

/// Adding zero to a settled number leaves it.
proof fn lemma_add_zero(a: F32, z: F32)
    requires
        is_settled(a),
        z.zero_spec(),
    ensures
        a.add_spec(z) == a,
{
    reveal(F32::add_spec);
    if a.finite_spec() {
        lemma_zero_units(a);
        lemma_zero_units(z);
        lemma_round_exact(a.code_spec());
    }
}

proof fn lemma_sum_settled(s: Seq<F32>)
    ensures
        is_settled(sum_of(s)),
    decreases s.len(),
{
    if s.len() > 0 {
        lemma_sum_settled(s.drop_last());
        lemma_add_settled(sum_of(s.drop_last()), s.last());
    }
}

/// Zeros at the end do not change a sum.
proof fn lemma_sum_of_front(s: Seq<F32>, n: int)
    requires
        0 <= n <= s.len(),
        forall|j: int| n <= j < s.len() ==> (#[trigger] s[j]).zero_spec(),
    ensures
        sum_of(s) == sum_of(s.take(n)),
    decreases s.len() - n,
{
    if n < s.len() {
        let init = s.drop_last();
        assert forall|j: int| n <= j < init.len() implies (#[trigger] init[j]).zero_spec() by {
            assert(init[j] == s[j]);
        }
        lemma_sum_of_front(init, n);
        assert(init.take(n) =~= s.take(n));
        lemma_sum_settled(init);
        assert(s[s.len() - 1].zero_spec());
        lemma_add_zero(sum_of(init), s.last());
    } else {
        assert(s.take(n) =~= s);
    }
}

proof fn lemma_dot_settled(a: Seq<F32>, a0: int, b: Seq<F32>, b0: int, step: int, n: nat)
    ensures
        is_settled(dot(F32 { bits: 0 }, a, a0, b, b0, step, n)),
    decreases n,
{
    if n > 0 {
        let q = (n - 1) as nat;
        lemma_dot_settled(a, a0, b, b0, step, q);
        lemma_add_settled(
            dot(F32 { bits: 0 }, a, a0, b, b0, step, q),
            a[a0 + q].mul_spec(b[b0 + q * step]),
        );
    }
}

/// Products with zeros at the end do not change a sum of products.
proof fn lemma_dot_of_front(a: Seq<F32>, b: Seq<F32>, b0: int, step: int, k: nat, n: nat)
    requires
        k <= n,
        forall|j: int| k <= j < n ==> (#[trigger] a[j]).zero_spec() && b[b0 + j * step].finite_spec(),
    ensures
        dot(F32 { bits: 0 }, a, 0, b, b0, step, n) == dot(F32 { bits: 0 }, a, 0, b, b0, step, k),
    decreases n - k,
{
    if k < n {
        let q = (n - 1) as nat;
        lemma_dot_of_front(a, b, b0, step, k, q);
        lemma_dot_settled(a, 0, b, b0, step, q);
        assert(a[q as int].zero_spec());
        lemma_zero_product(a[q as int], b[b0 + q * step]);
        lemma_add_zero(
            dot(F32 { bits: 0 }, a, 0, b, b0, step, q),
            a[q as int].mul_spec(b[b0 + q * step]),
        );
    }
}

/// Sums of products agree where the factors do.
proof fn lemma_dot_same(
    a: Seq<F32>,
    a0: int,
    b: Seq<F32>,
    b0: int,
    c: Seq<F32>,
    c0: int,
    d: Seq<F32>,
    d0: int,
    step: int,
    n: nat,
)
    requires
        forall|j: int| 0 <= j < n ==> #[trigger] a[a0 + j] == c[c0 + j],
        forall|j: int| 0 <= j < n ==> b[b0 + #[trigger] (j * step)] == d[d0 + j * step],
    ensures
        dot(F32 { bits: 0 }, a, a0, b, b0, step, n) == dot(F32 { bits: 0 }, c, c0, d, d0, step, n),
    decreases n,
{
    if n > 0 {
        let q = (n - 1) as nat;
        lemma_dot_same(a, a0, b, b0, c, c0, d, d0, step, q);
        assert(a[a0 + q] == c[c0 + q]);
        assert(b[b0 + q * step] == d[d0 + q * step]);
    }
}

// ---------------------------------------------------------------------------
// Layers act on each row alone
// ---------------------------------------------------------------------------

/// Row `r` of one matrix is row `s` of another.
spec fn same_row(t: Tensor, r: int, u: Tensor, s: int, c: int) -> bool {
    row_of(t.data@, r, c) == row_of(u.data@, s, c)
}

/// An element of a row.
proof fn lemma_row_at(data: Seq<F32>, r: int, n: int, c: int, j: int)
    requires
        data.len() == n * c,
        0 <= r < n,
        0 <= j < c,
    ensures
        row_of(data, r, c).len() == c,
        row_of(data, r, c)[j] == data[cell(r, j, c)],
        0 <= cell(r, j, c) < data.len(),
{
    lemma_cell(r, j, n, c);
}

/// Rows are the same whose elements are.
proof fn lemma_same_row(t: Tensor, r: int, nt: int, u: Tensor, s: int, nu: int, c: int)
    requires
        t.data@.len() == nt * c,
        u.data@.len() == nu * c,
        0 <= r < nt,
        0 <= s < nu,
        c >= 0,
        forall|j: int| 0 <= j < c ==> #[trigger] t.data@[cell(r, j, c)] == u.data@[cell(s, j, c)],
    ensures
        same_row(t, r, u, s, c),
{
    lemma_row(r, nt, c);
    lemma_row(s, nu, c);
    let a = row_of(t.data@, r, c);
    let b = row_of(u.data@, s, c);
    assert forall|j: int| 0 <= j < c implies a[j] == b[j] by {
        assert(a[j] == t.data@[cell(r, j, c)]);
        assert(b[j] == u.data@[cell(s, j, c)]);
    }
    assert(a =~= b);
}

/// An element of rows that are the same.
proof fn lemma_same_at(t: Tensor, r: int, nt: int, u: Tensor, s: int, nu: int, c: int, j: int)
    requires
        t.data@.len() == nt * c,
        u.data@.len() == nu * c,
        0 <= r < nt,
        0 <= s < nu,
        0 <= j < c,
        same_row(t, r, u, s, c),
    ensures
        t.data@[cell(r, j, c)] == u.data@[cell(s, j, c)],
        0 <= cell(r, j, c) < t.data@.len(),
        0 <= cell(s, j, c) < u.data@.len(),
{
    lemma_row_at(t.data@, r, nt, c, j);
    lemma_row_at(u.data@, s, nu, c, j);
}

proof fn lemma_linear_row(l: Linear, x: Tensor, t: Tensor, nx: int, r: int, y: Tensor, u: Tensor, ny: int, s: int)
    requires
        l.fits(),
        l.maps(x, t),
        l.maps(y, u),
        x.is_sized(nx, l.in_f as int),
        y.is_sized(ny, l.in_f as int),
        0 <= r < nx,
        0 <= s < ny,
        same_row(x, r, y, s, l.in_f as int),
    ensures
        t.is_sized(nx, l.out_f as int),
        u.is_sized(ny, l.out_f as int),
        same_row(t, r, u, s, l.out_f as int),
{
    let p = l.in_f as int;
    let c = l.out_f as int;
    assert forall|j: int| 0 <= j < p implies #[trigger] x.data@[r * p + j] == y.data@[s * p + j] by {
        lemma_same_at(x, r, nx, y, s, ny, p, j);
        assert(cell(r, j, p) == r * p + j);
        assert(cell(s, j, p) == s * p + j);
    }
    assert forall|j: int| 0 <= j < c implies #[trigger] t.data@[cell(r, j, c)] == u.data@[cell(s, j, c)] by {
        assert(t.at_spec(r, j) == t.data@[cell(r, j, c)]);
        assert(u.at_spec(s, j) == u.data@[cell(s, j, c)]);
        match l.quant {
            Some(w) => {
                assert(scaled_row(x, w, r) =~= scaled_row(y, w, s)) by {
                    assert forall|k: int| 0 <= k < w.rows implies scaled_row(x, w, r)[k] == scaled_row(
                        y,
                        w,
                        s,
                    )[k] by {
                        assert(cell(r, k, p) == r * p + k);
                        assert(x.data@[r * p + k] == y.data@[s * p + k]);
                    }
                }
            },
            None => {
                let w = l.weight;
                lemma_dot_same(
                    x.data@,
                    r * p,
                    w.data@,
                    j,
                    y.data@,
                    s * p,
                    w.data@,
                    j,
                    w.shape@[1] as int,
                    p as nat,
                );
                assert(product_at(x, w, r, j) == product_at(y, w, s, j));
            },
        }
    }
    lemma_same_row(t, r, nx, u, s, ny, c);
}

proof fn lemma_norm_row(l: LayerNorm, x: Tensor, t: Tensor, nx: int, r: int, y: Tensor, u: Tensor, ny: int, s: int)
    requires
        l.maps(x, t),
        l.maps(y, u),
        x.is_sized(nx, l.width as int),
        y.is_sized(ny, l.width as int),
        0 <= r < nx,
        0 <= s < ny,
        same_row(x, r, y, s, l.width as int),
    ensures
        t.is_sized(nx, l.width as int),
        u.is_sized(ny, l.width as int),
        same_row(t, r, u, s, l.width as int),
{
    let c = l.width as int;
    assert(row_of(t.data@, r, c) == norm_row(row_of(x.data@, r, c), l.gamma.data@, l.beta.data@));
    assert(row_of(u.data@, s, c) == norm_row(row_of(y.data@, s, c), l.gamma.data@, l.beta.data@));
}

proof fn lemma_sum_row(
    a: Tensor,
    b: Tensor,
    t: Tensor,
    nx: int,
    r: int,
    d: Tensor,
    e: Tensor,
    u: Tensor,
    ny: int,
    s: int,
    c: int,
)
    requires
        is_sum(a, b, t),
        is_sum(d, e, u),
        a.is_sized(nx, c),
        b.is_sized(nx, c),
        d.is_sized(ny, c),
        e.is_sized(ny, c),
        0 <= r < nx,
        0 <= s < ny,
        c >= 0,
        same_row(a, r, d, s, c),
        same_row(b, r, e, s, c),
    ensures
        t.is_sized(nx, c),
        u.is_sized(ny, c),
        same_row(t, r, u, s, c),
{
    assert forall|j: int| 0 <= j < c implies #[trigger] t.data@[cell(r, j, c)] == u.data@[cell(s, j, c)] by {
        lemma_same_at(a, r, nx, d, s, ny, c, j);
        lemma_same_at(b, r, nx, e, s, ny, c, j);
    }
    lemma_same_row(t, r, nx, u, s, ny, c);
}

proof fn lemma_relu_row(a: Tensor, t: Tensor, nx: int, r: int, d: Tensor, u: Tensor, ny: int, s: int, c: int)
    requires
        is_relu(a, t),
        is_relu(d, u),
        a.is_sized(nx, c),
        d.is_sized(ny, c),
        0 <= r < nx,
        0 <= s < ny,
        c >= 0,
        same_row(a, r, d, s, c),
    ensures
        t.is_sized(nx, c),
        u.is_sized(ny, c),
        same_row(t, r, u, s, c),
{
    assert forall|j: int| 0 <= j < c implies #[trigger] t.data@[cell(r, j, c)] == u.data@[cell(s, j, c)] by {
        lemma_same_at(a, r, nx, d, s, ny, c, j);
    }
    lemma_same_row(t, r, nx, u, s, ny, c);
}

/// Norm and projections of a row are those of the row alone.
proof fn lemma_start_row(
    b: TransformerBlock,
    x: Tensor,
    tr: BlockTrace,
    nx: int,
    r: int,
    y: Tensor,
    us: BlockTrace,
    ny: int,
    s: int,
)
    requires
        b.fits(),
        b.starts(x, tr),
        b.starts(y, us),
        x.is_sized(nx, b.width as int),
        y.is_sized(ny, b.width as int),
        0 <= r < nx,
        0 <= s < ny,
        same_row(x, r, y, s, b.width as int),
    ensures
        tr.q.is_sized(nx, b.width as int),
        tr.k.is_sized(nx, b.width as int),
        tr.v.is_sized(nx, b.width as int),
        us.q.is_sized(ny, b.width as int),
        us.k.is_sized(ny, b.width as int),
        us.v.is_sized(ny, b.width as int),
        same_row(tr.q, r, us.q, s, b.width as int),
        same_row(tr.k, r, us.k, s, b.width as int),
        same_row(tr.v, r, us.v, s, b.width as int),
{
    lemma_norm_row(b.ln1, x, tr.norm1, nx, r, y, us.norm1, ny, s);
    lemma_linear_row(b.q_proj, tr.norm1, tr.q, nx, r, us.norm1, us.q, ny, s);
    lemma_linear_row(b.k_proj, tr.norm1, tr.k, nx, r, us.norm1, us.k, ny, s);
    lemma_linear_row(b.v_proj, tr.norm1, tr.v, nx, r, us.norm1, us.v, ny, s);
}

/// What follows the attention acts on each row alone.
proof fn lemma_finish_row(
    b: TransformerBlock,
    x: Tensor,
    tr: BlockTrace,
    t: Tensor,
    nx: int,
    r: int,
    y: Tensor,
    us: BlockTrace,
    u: Tensor,
    ny: int,
    s: int,
)
    requires
        b.fits(),
        b.finishes(x, tr, t),
        b.finishes(y, us, u),
        x.is_sized(nx, b.width as int),
        y.is_sized(ny, b.width as int),
        tr.mixed.is_sized(nx, b.width as int),
        us.mixed.is_sized(ny, b.width as int),
        0 <= r < nx,
        0 <= s < ny,
        same_row(x, r, y, s, b.width as int),
        same_row(tr.mixed, r, us.mixed, s, b.width as int),
    ensures
        t.is_sized(nx, b.width as int),
        u.is_sized(ny, b.width as int),
        same_row(t, r, u, s, b.width as int),
{
    let c = b.width as int;
    lemma_linear_row(b.out_proj, tr.mixed, tr.projected, nx, r, us.mixed, us.projected, ny, s);
    lemma_sum_row(x, tr.projected, tr.mid, nx, r, y, us.projected, us.mid, ny, s, c);
    lemma_norm_row(b.ln2, tr.mid, tr.norm2, nx, r, us.mid, us.norm2, ny, s);
    lemma_linear_row(b.ffn1, tr.norm2, tr.hidden, nx, r, us.norm2, us.hidden, ny, s);
    lemma_relu_row(tr.hidden, tr.active, nx, r, us.hidden, us.active, ny, s, b.ffn1.out_f as int);
    lemma_linear_row(b.ffn2, tr.active, tr.widened, nx, r, us.active, us.widened, ny, s);
    lemma_sum_row(tr.mid, tr.widened, t, nx, r, us.mid, us.widened, u, ny, s, c);
}

// ---------------------------------------------------------------------------
// Attention
// ---------------------------------------------------------------------------

/// The scores of row `r`, head `h` of one sequence against the positions that it
/// may see.
pub open spec fn seen_scores(b: TransformerBlock, q: Seq<F32>, k: Seq<F32>, r: int, h: int) -> Seq<F32> {
    let c = b.width as int;
    let hd = b.head_dim();
    scores_of(q, r * c + h * hd, k, h * hd, c, hd, r + 1, r + 1, head_scale_of(hd))
}

/// An exponential has one value.
pub open spec fn exp_is_a_function<M: Math>(m: &M) -> bool {
    forall|x: F32, a: F32, b: F32| #[trigger]
        is_exp(m, x, a) && #[trigger] is_exp(m, x, b) ==> a == b
}

/// Masked positions count for nothing: no row has all its scores below the mask,
/// and the exponential of the mask below the greatest score is zero.
pub open spec fn masks_vanish<M: Math>(b: TransformerBlock, m: &M, tr: BlockTrace) -> bool {
    forall|r: int, h: int|
        0 <= r < b.context && 0 <= h < b.heads ==> {
            let top = max_of(#[trigger] seen_scores(b, tr.q.data@, tr.k.data@, r, h));
            &&& !top.lt_spec(F32 { bits: MASKED_BITS })
            &&& forall|e: F32| #[trigger]
                is_exp(m, F32 { bits: MASKED_BITS }.sub_spec(top), e) ==> e.zero_spec()
        }
}

/// Weights and values of an attention are finite.
pub open spec fn is_bounded(tr: BlockTrace) -> bool {
    all_finite(tr.weights@) && all_finite(tr.v.data@)
}

proof fn lemma_max_is_number(s: Seq<F32>)
    ensures
        !max_of(s).nan_spec(),
    decreases s.len(),
{
    if s.len() > 0 {
        lemma_max_is_number(s.drop_last());
    }
}

/// Scores at the mask do not raise the greatest.
proof fn lemma_max_of_front(s: Seq<F32>, n: int)
    requires
        0 <= n <= s.len(),
        forall|j: int| n <= j < s.len() ==> #[trigger] s[j] == (F32 { bits: MASKED_BITS }),
        !max_of(s.take(n)).lt_spec(F32 { bits: MASKED_BITS }),
    ensures
        max_of(s) == max_of(s.take(n)),
    decreases s.len() - n,
{
    if n < s.len() {
        let init = s.drop_last();
        assert forall|j: int| n <= j < init.len() implies #[trigger] init[j] == (F32 {
            bits: MASKED_BITS,
        }) by {
            assert(init[j] == s[j]);
        }
        assert(init.take(n) =~= s.take(n));
        lemma_max_of_front(init, n);
        lemma_max_is_number(init);
        assert(s[s.len() - 1] == (F32 { bits: MASKED_BITS }));
    } else {
        assert(s.take(n) =~= s);
    }
}

/// The softmax of the scores in view is the front of that of all scores.
proof fn lemma_softmax_of_front<M: Math>(m: &M, x: Seq<F32>, y: Seq<F32>, n: int)
    requires
        is_softmax(m, x, y),
        0 <= n <= x.len(),
        forall|j: int| n <= j < x.len() ==> #[trigger] x[j] == (F32 { bits: MASKED_BITS }),
        !max_of(x.take(n)).lt_spec(F32 { bits: MASKED_BITS }),
        forall|e: F32| #[trigger]
            is_exp(m, F32 { bits: MASKED_BITS }.sub_spec(max_of(x.take(n))), e) ==> e.zero_spec(),
        all_finite(y),
    ensures
        y.len() == x.len(),
        is_softmax(m, x.take(n), y.take(n)),
        forall|j: int| n <= j < y.len() ==> (#[trigger] y[j]).zero_spec(),
{
    let e = choose|e: Seq<F32>| softmax_via(m, x, e, y);
    lemma_max_of_front(x, n);
    assert forall|j: int| n <= j < e.len() implies (#[trigger] e[j]).zero_spec() by {
        assert(is_exp(m, x[j].sub_spec(max_of(x)), e[j]));
        assert(x[j] == (F32 { bits: MASKED_BITS }));
    }
    lemma_sum_of_front(e, n);
    let front = e.take(n);
    let xs = x.take(n);
    let ys = y.take(n);
    assert forall|j: int| 0 <= j < xs.len() implies is_exp(
        m,
        xs[j].sub_spec(max_of(xs)),
        #[trigger] front[j],
    ) by {
        assert(front[j] == e[j]);
        assert(xs[j] == x[j]);
    }
    assert forall|j: int| 0 <= j < xs.len() implies #[trigger] ys[j] == front[j].div_spec(
        sum_of(front),
    ) by {
        assert(ys[j] == y[j]);
        assert(front[j] == e[j]);
    }
    assert(softmax_via(m, xs, front, ys));
    assert forall|j: int| n <= j < y.len() implies (#[trigger] y[j]).zero_spec() by {
        assert(y[j] == e[j].div_spec(sum_of(e)));
        assert(e[j].zero_spec());
        assert(y[j].finite_spec());
        lemma_zero_quotient(e[j], sum_of(e));
        lemma_no_quotient(e[j], sum_of(e));
    }
}

/// Zero over zero, and anything over not-a-number, is not a number.
proof fn lemma_no_quotient(z: F32, b: F32)
    requires
        z.zero_spec(),
    ensures
        b.nan_spec() || b.zero_spec() ==> z.div_spec(b).nan_spec(),
{
    reveal(F32::div_spec);
}

/// Equal scores have equal shares.
proof fn lemma_softmax_same<M: Math>(m: &M, x: Seq<F32>, y: Seq<F32>, z: Seq<F32>)
    requires
        exp_is_a_function(m),
        is_softmax(m, x, y),
        is_softmax(m, x, z),
    ensures
        y == z,
{
    let a = choose|e: Seq<F32>| softmax_via(m, x, e, y);
    let b = choose|e: Seq<F32>| softmax_via(m, x, e, z);
    assert forall|j: int| 0 <= j < x.len() implies a[j] == b[j] by {
        assert(is_exp(m, x[j].sub_spec(max_of(x)), a[j]));
        assert(is_exp(m, x[j].sub_spec(max_of(x)), b[j]));
    }
    assert(a =~= b);
    assert forall|j: int| 0 <= j < x.len() implies y[j] == z[j] by {
        assert(y[j] == a[j].div_spec(sum_of(a)));
        assert(z[j] == b[j].div_spec(sum_of(b)));
    }
    assert(y =~= z);
}

/// The heads fill the width.
proof fn lemma_heads(b: TransformerBlock, h: int)
    requires
        b.fits(),
        0 <= h < b.heads,
    ensures
        b.head_dim() >= 0,
        b.heads * b.head_dim() == b.width,
        0 <= h * b.head_dim(),
        h * b.head_dim() + b.head_dim() <= b.width,
{
    let n = b.heads as int;
    let c = b.width as int;
    let hd = b.head_dim();
    assert(hd >= 0 && n * hd == c) by (nonlinear_arith)
        requires
            hd == c / n,
            c % n == 0,
            n > 0,
            c >= 0,
    ;
    lemma_row(h, n, hd);
}

/// What row `r`, head `h` of one sequence attends to: the weights of the
/// positions in view, and what they mix.
spec fn looks_back<M: Math>(
    b: TransformerBlock,
    m: &M,
    q: Seq<F32>,
    k: Seq<F32>,
    v: Seq<F32>,
    w: Seq<F32>,
    r: int,
    h: int,
    out: Seq<F32>,
) -> bool {
    &&& is_softmax(m, seen_scores(b, q, k, r, h), w)
    &&& w.len() == r + 1
    &&& out == mix_of(w, v, h * b.head_dim(), b.width as int, b.head_dim())
}

/// The weights of row `r`, head `h` in one sequence.
spec fn weights_in_view(b: TransformerBlock, tr: BlockTrace, r: int, h: int) -> Seq<F32> {
    let t = b.context as int;
    tr.weights@.subrange(b.unit(r, h) * t, b.unit(r, h) * t + t).take(r + 1)
}

/// A row of a whole sequence attends to the positions in view alone.
#[verifier::rlimit(60)]
#[verifier::spinoff_prover]
proof fn lemma_looks_back<M: Math>(b: TransformerBlock, m: &M, tr: BlockTrace, r: int, h: int)
    requires
        b.fits(),
        0 <= r < b.context,
        0 <= h < b.heads,
        b.attends(m, tr, r, h),
        masks_vanish(b, m, tr),
        is_bounded(tr),
        tr.v.is_sized(b.context as int, b.width as int),
        tr.weights@.len() == b.context * b.heads * b.context,
    ensures
        looks_back(
            b,
            m,
            tr.q.data@,
            tr.k.data@,
            tr.v.data@,
            weights_in_view(b, tr, r, h),
            r,
            h,
            head_part(tr.mixed.data@, r, h, b.width as int, b.head_dim()),
        ),
{
    let t = b.context as int;
    let c = b.width as int;
    let hd = b.head_dim();
    let n = b.heads as int;
    lemma_heads(b, h);
    assert(r / t == 0 && r % t == r) by (nonlinear_arith)
        requires
            0 <= r < t,
    ;
    let unit = b.unit(r, h);
    assert(0 * n == 0 && 0 * t == 0 && 0 * c == 0) by (nonlinear_arith);
    assert(unit == h * t + r);
    assert(0 <= unit * t && unit * t + t <= t * n * t) by (nonlinear_arith)
        requires
            unit == h * t + r,
            0 <= h < n,
            0 <= r < t,
    ;
    let w = tr.weights@.subrange(unit * t, unit * t + t);
    let x = scores_of(
        tr.q.data@,
        r * c + h * hd,
        tr.k.data@,
        h * hd,
        c,
        hd,
        t,
        r + 1,
        head_scale_of(hd),
    );
    let seen = seen_scores(b, tr.q.data@, tr.k.data@, r, h);
    assert(x.take(r + 1) =~= seen);
    assert(is_softmax(m, x, w));
    assert forall|j: int| 0 <= j < w.len() implies (#[trigger] w[j]).finite_spec() by {
        assert(tr.weights@[unit * t + j].finite_spec());
    }
    lemma_softmax_of_front(m, x, w, r + 1);
    let front = w.take(r + 1);
    let v = tr.v.data@;
    let whole = mix_of(w, v, h * hd, c, hd);
    let short = mix_of(front, v, h * hd, c, hd);
    assert forall|d: int| 0 <= d < hd implies whole[d] == short[d] by {
        let b0 = h * hd + d;
        assert forall|j: int| r + 1 <= j < t implies (#[trigger] w[j]).zero_spec() && v[b0 + j
            * c].finite_spec() by {
            lemma_cell(j, b0, t, c);
            assert(cell(j, b0, c) == b0 + j * c);
        }
        lemma_dot_of_front(w, v, b0, c, (r + 1) as nat, t as nat);
        assert forall|j: int| 0 <= j < r + 1 implies #[trigger] w[0 + j] == front[0 + j] by {}
        lemma_dot_same(w, 0, v, b0, front, 0, v, b0, c, (r + 1) as nat);
    }
    assert(whole =~= short);
}

/// Rows that look back at the same see the same.
proof fn lemma_look_same<M: Math>(
    b: TransformerBlock,
    m: &M,
    q: Seq<F32>,
    k: Seq<F32>,
    v: Seq<F32>,
    w: Seq<F32>,
    out: Seq<F32>,
    q2: Seq<F32>,
    k2: Seq<F32>,
    v2: Seq<F32>,
    w2: Seq<F32>,
    out2: Seq<F32>,
    r: int,
    h: int,
)
    requires
        b.fits(),
        exp_is_a_function(m),
        0 <= r,
        0 <= h < b.heads,
        looks_back(b, m, q, k, v, w, r, h, out),
        looks_back(b, m, q2, k2, v2, w2, r, h, out2),
        forall|i: int| 0 <= i < b.width ==> #[trigger] q[r * b.width + i] == q2[r * b.width + i],
        forall|j: int, i: int|
            0 <= j <= r && 0 <= i < b.width ==> #[trigger] k[cell(j, i, b.width as int)] == k2[cell(
                j,
                i,
                b.width as int,
            )],
        forall|j: int, i: int|
            0 <= j <= r && 0 <= i < b.width ==> #[trigger] v[cell(j, i, b.width as int)] == v2[cell(
                j,
                i,
                b.width as int,
            )],
    ensures
        out == out2,
{
    let c = b.width as int;
    let hd = b.head_dim();
    lemma_heads(b, h);
    let s = seen_scores(b, q, k, r, h);
    let s2 = seen_scores(b, q2, k2, r, h);
    assert forall|j: int| 0 <= j < r + 1 implies s[j] == s2[j] by {
        let q0 = r * c + h * hd;
        let k0 = h * hd + j * c;
        assert forall|d: int| 0 <= d < hd implies #[trigger] q[q0 + d] == q2[q0 + d] by {
            assert(q[r * c + (h * hd + d)] == q2[r * c + (h * hd + d)]);
        }
        assert forall|d: int| 0 <= d < hd implies k[k0 + #[trigger] (d * 1)] == k2[k0 + d * 1] by {
            assert(k[cell(j, h * hd + d, c)] == k2[cell(j, h * hd + d, c)]);
        }
        lemma_dot_same(q, q0, k, k0, q2, q0, k2, k0, 1, hd as nat);
    }
    assert(s =~= s2);
    lemma_softmax_same(m, s, w, w2);
    assert forall|d: int| 0 <= d < hd implies out[d] == out2[d] by {
        let b0 = h * hd + d;
        assert forall|j: int| 0 <= j < r + 1 implies v[b0 + #[trigger] (j * c)] == v2[b0 + j * c] by {
            assert(v[cell(j, b0, c)] == v2[cell(j, b0, c)]);
        }
        lemma_dot_same(w, 0, v, b0, w2, 0, v2, b0, c, (r + 1) as nat);
    }
    assert(out =~= out2);
}

/// A row of heads is the same whose heads are.
proof fn lemma_heads_row(b: TransformerBlock, t: Tensor, nt: int, r: int, u: Tensor, nu: int, s: int)
    requires
        b.fits(),
        t.is_sized(nt, b.width as int),
        u.is_sized(nu, b.width as int),
        0 <= r < nt,
        0 <= s < nu,
        forall|h: int|
            0 <= h < b.heads ==> #[trigger] head_part(
                t.data@,
                r,
                h,
                b.width as int,
                b.head_dim(),
            ) == head_part(u.data@, s, h, b.width as int, b.head_dim()),
    ensures
        same_row(t, r, u, s, b.width as int),
{
    let c = b.width as int;
    let hd = b.head_dim();
    assert forall|i: int| 0 <= i < c implies #[trigger] t.data@[cell(r, i, c)] == u.data@[cell(s, i, c)] by {
        lemma_heads(b, 0);
        assert(hd > 0) by (nonlinear_arith)
            requires
                b.heads * hd == c,
                c > 0,
                hd >= 0,
        ;
        let h = i / hd;
        let d = i % hd;
        assert(0 <= h < b.heads && 0 <= d < hd && i == h * hd + d) by (nonlinear_arith)
            requires
                h == i / hd,
                d == i % hd,
                hd > 0,
                0 <= i < c,
                b.heads * hd == c,
        ;
        lemma_heads(b, h);
        lemma_row(r, nt, c);
        lemma_row(s, nu, c);
        let a = head_part(t.data@, r, h, c, hd);
        let e = head_part(u.data@, s, h, c, hd);
        assert(a == e);
        assert(a[d] == t.data@[r * c + h * hd + d]);
        assert(e[d] == u.data@[s * c + h * hd + d]);
    }
    lemma_same_row(t, r, nt, u, s, nu, c);
}

// ---------------------------------------------------------------------------
// Laws
// ---------------------------------------------------------------------------

/// The first `i + 1` rows of two matrices are the same.
pub open spec fn agree_up_to(x: Tensor, y: Tensor, i: int, c: int) -> bool {
    forall|r: int| 0 <= r <= i ==> #[trigger] row_of(x.data@, r, c) == row_of(y.data@, r, c)
}

/// Elements of rows that are the same.
proof fn lemma_cells_agree(t: Tensor, u: Tensor, n: int, i: int, c: int)
    requires
        t.is_sized(n, c),
        u.is_sized(n, c),
        0 <= i < n,
        forall|r: int| 0 <= r <= i ==> #[trigger] same_row(t, r, u, r, c),
    ensures
        forall|r: int, j: int|
            0 <= r <= i && 0 <= j < c ==> #[trigger] t.data@[cell(r, j, c)] == u.data@[cell(r, j, c)],
{
    assert forall|r: int, j: int| 0 <= r <= i && 0 <= j < c implies #[trigger] t.data@[cell(r, j, c)]
        == u.data@[cell(r, j, c)] by {
        assert(same_row(t, r, u, r, c));
        lemma_same_at(t, r, n, u, r, n, c, j);
    }
}

/// Later rows of a sequence do not change earlier ones: where the first rows of
/// two inputs are the same, so are those of the outputs, bit for bit.
#[verifier::rlimit(60)]
#[verifier::spinoff_prover]
pub proof fn later_rows_do_not_change_earlier_ones<M: Math>(
    b: TransformerBlock,
    m: &M,
    x: Tensor,
    tr: BlockTrace,
    t: Tensor,
    y: Tensor,
    us: BlockTrace,
    u: Tensor,
    i: int,
)
    requires
        b.fits(),
        x.is_sized(b.context as int, b.width as int),
        y.is_sized(b.context as int, b.width as int),
        b.explains(m, x, tr, t),
        b.explains(m, y, us, u),
        exp_is_a_function(m),
        masks_vanish(b, m, tr),
        masks_vanish(b, m, us),
        is_bounded(tr),
        is_bounded(us),
        0 <= i < b.context,
        agree_up_to(x, y, i, b.width as int),
    ensures
        agree_up_to(t, u, i, b.width as int),
{
    let n = b.context as int;
    let c = b.width as int;
    assert forall|r: int| 0 <= r <= i implies same_row(tr.q, r, us.q, r, c) && same_row(
        tr.k,
        r,
        us.k,
        r,
        c,
    ) && same_row(tr.v, r, us.v, r, c) by {
        assert(row_of(x.data@, r, c) == row_of(y.data@, r, c));
        lemma_start_row(b, x, tr, n, r, y, us, n, r);
    }
    assert(row_of(x.data@, 0, c) == row_of(y.data@, 0, c));
    lemma_start_row(b, x, tr, n, 0, y, us, n, 0);
    lemma_cells_agree(tr.q, us.q, n, i, c);
    lemma_cells_agree(tr.k, us.k, n, i, c);
    lemma_cells_agree(tr.v, us.v, n, i, c);
    assert forall|r: int| 0 <= r <= i implies #[trigger] row_of(t.data@, r, c) == row_of(u.data@, r, c) by {
        assert(row_of(x.data@, r, c) == row_of(y.data@, r, c));
        assert forall|h: int| 0 <= h < b.heads implies #[trigger] head_part(
            tr.mixed.data@,
            r,
            h,
            c,
            b.head_dim(),
        ) == head_part(us.mixed.data@, r, h, c, b.head_dim()) by {
            assert(b.attends(m, tr, r, h));
            assert(b.attends(m, us, r, h));
            lemma_looks_back(b, m, tr, r, h);
            lemma_looks_back(b, m, us, r, h);
            assert forall|j: int| 0 <= j < c implies #[trigger] tr.q.data@[r * c + j] == us.q.data@[r
                * c + j] by {
                assert(tr.q.data@[cell(r, j, c)] == us.q.data@[cell(r, j, c)]);
            }
            lemma_look_same(
                b,
                m,
                tr.q.data@,
                tr.k.data@,
                tr.v.data@,
                weights_in_view(b, tr, r, h),
                head_part(tr.mixed.data@, r, h, c, b.head_dim()),
                us.q.data@,
                us.k.data@,
                us.v.data@,
                weights_in_view(b, us, r, h),
                head_part(us.mixed.data@, r, h, c, b.head_dim()),
                r,
                h,
            );
        }
        lemma_heads_row(b, tr.mixed, n, r, us.mixed, n, r);
        lemma_finish_row(b, x, tr, t, n, r, y, us, u, n, r);
        assert(same_row(t, r, u, r, c));
    }
}

/// The rows of a matrix, fed one by one through a cache that begins empty.
pub open spec fn is_fed<M: Math>(
    b: TransformerBlock,
    m: &M,
    x: Tensor,
    rows: Seq<Tensor>,
    caches: Seq<KvCache>,
    trs: Seq<BlockTrace>,
    outs: Seq<Tensor>,
) -> bool {
    &&& rows.len() == b.context
    &&& caches.len() == b.context + 1
    &&& trs.len() == b.context
    &&& outs.len() == b.context
    &&& caches[0].count == 0
    &&& caches[0].k@.len() == 0
    &&& caches[0].v@.len() == 0
    &&& forall|r: int|
        0 <= r < b.context ==> {
            &&& (#[trigger] rows[r]).is_sized(1, b.width as int)
            &&& rows[r].data@ == row_of(x.data@, r, b.width as int)
            &&& b.explains_cached(m, rows[r], caches[r], caches[r + 1], trs[r], outs[r])
        }
}

/// Row `r` of a matrix is the only row of another.
proof fn lemma_only_row(x: Tensor, n: int, r: int, y: Tensor, c: int)
    requires
        x.is_sized(n, c),
        y.is_sized(1, c),
        0 <= r < n,
        c >= 0,
    ensures
        row_of(y.data@, 0, c) == y.data@,
        same_row(x, r, y, 0, c) <==> y.data@ == row_of(x.data@, r, c),
{
    assert(0 * c == 0 && 1 * c == c) by (nonlinear_arith);
    assert(row_of(y.data@, 0, c) =~= y.data@);
}

/// What the cache holds behind row `r`.
proof fn lemma_cache_holds<M: Math>(
    b: TransformerBlock,
    m: &M,
    x: Tensor,
    tr: BlockTrace,
    rows: Seq<Tensor>,
    caches: Seq<KvCache>,
    trs: Seq<BlockTrace>,
    outs: Seq<Tensor>,
    r: int,
)
    requires
        b.fits(),
        x.is_sized(b.context as int, b.width as int),
        b.starts(x, tr),
        is_fed(b, m, x, rows, caches, trs, outs),
        0 <= r <= b.context,
    ensures
        tr.k.is_sized(b.context as int, b.width as int),
        tr.v.is_sized(b.context as int, b.width as int),
        caches[r].count == r,
        r * b.width <= tr.k.data@.len(),
        r * b.width <= tr.v.data@.len(),
        caches[r].k@ == tr.k.data@.take(r * b.width),
        caches[r].v@ == tr.v.data@.take(r * b.width),
    decreases r,
{
    let n = b.context as int;
    let c = b.width as int;
    if r == 0 {
        assert(rows[0].is_sized(1, c));
        lemma_only_row(x, n, 0, rows[0], c);
        lemma_start_row(b, x, tr, n, 0, rows[0], trs[0], 1, 0);
        assert(0 * c == 0) by (nonlinear_arith);
        assert(0 <= n * c) by (nonlinear_arith)
            requires
                n >= 0,
                c >= 0,
        ;
        assert(caches[0].k@ =~= tr.k.data@.take(0));
        assert(caches[0].v@ =~= tr.v.data@.take(0));
    } else {
        let p = r - 1;
        lemma_cache_holds(b, m, x, tr, rows, caches, trs, outs, p);
        assert(rows[p].is_sized(1, c));
        lemma_only_row(x, n, p, rows[p], c);
        lemma_start_row(b, x, tr, n, p, rows[p], trs[p], 1, 0);
        lemma_only_row(tr.k, n, p, trs[p].k, c);
        lemma_only_row(tr.v, n, p, trs[p].v, c);
        lemma_row(p, n, c);
        assert(caches[p + 1].k@ =~= tr.k.data@.take(r * c));
        assert(caches[p + 1].v@ =~= tr.v.data@.take(r * c));
    }
}

/// A row that attends over the cache looks back at the positions of the sequence.
proof fn lemma_cached_looks_back<M: Math>(
    b: TransformerBlock,
    m: &M,
    tr: BlockTrace,
    us: BlockTrace,
    cache: KvCache,
    r: int,
    h: int,
)
    requires
        b.fits(),
        0 <= r < b.context,
        0 <= h < b.heads,
        tr.q.is_sized(b.context as int, b.width as int),
        us.q.is_sized(1, b.width as int),
        same_row(tr.q, r, us.q, 0, b.width as int),
        cache.count == r + 1,
        b.attends_cached(m, us.q.data@, cache, us.weights@, us.mixed.data@, h),
    ensures
        exists|w: Seq<F32>| #[trigger]
            looks_back(
                b,
                m,
                tr.q.data@,
                cache.k@,
                cache.v@,
                w,
                r,
                h,
                head_part(us.mixed.data@, 0, h, b.width as int, b.head_dim()),
            ),
{
    let c = b.width as int;
    let hd = b.head_dim();
    let n = r + 1;
    let w = us.weights@.subrange(h * n, h * n + n);
    lemma_heads(b, h);
    lemma_only_row(tr.q, b.context as int, r, us.q, c);
    lemma_row(r, b.context as int, c);
    let s = scores_of(us.q.data@, h * hd, cache.k@, h * hd, c, hd, n, n, head_scale_of(hd));
    let seen = seen_scores(b, tr.q.data@, cache.k@, r, h);
    assert forall|j: int| 0 <= j < n implies s[j] == seen[j] by {
        let q0 = r * c + h * hd;
        assert forall|d: int| 0 <= d < hd implies #[trigger] us.q.data@[h * hd + d] == tr.q.data@[q0
            + d] by {
            assert(row_of(tr.q.data@, r, c)[h * hd + d] == tr.q.data@[r * c + (h * hd + d)]);
        }
        lemma_dot_same(
            us.q.data@,
            h * hd,
            cache.k@,
            h * hd + j * c,
            tr.q.data@,
            q0,
            cache.k@,
            h * hd + j * c,
            1,
            hd as nat,
        );
    }
    assert(s =~= seen);
    let e = choose|e: Seq<F32>| softmax_via(m, s, e, w);
    assert(w.len() == n);
    assert(looks_back(
        b,
        m,
        tr.q.data@,
        cache.k@,
        cache.v@,
        w,
        r,
        h,
        head_part(us.mixed.data@, 0, h, c, hd),
    ));
}

/// Rows that are fed one by one through a cache give the rows that the whole
/// sequence gives, bit for bit.
#[verifier::rlimit(60)]
#[verifier::spinoff_prover]
pub proof fn cached_steps_give_the_rows_of_the_full_pass<M: Math>(
    b: TransformerBlock,
    m: &M,
    x: Tensor,
    tr: BlockTrace,
    t: Tensor,
    rows: Seq<Tensor>,
    caches: Seq<KvCache>,
    trs: Seq<BlockTrace>,
    outs: Seq<Tensor>,
    r: int,
)
    requires
        b.fits(),
        x.is_sized(b.context as int, b.width as int),
        b.explains(m, x, tr, t),
        is_fed(b, m, x, rows, caches, trs, outs),
        exp_is_a_function(m),
        masks_vanish(b, m, tr),
        is_bounded(tr),
        0 <= r < b.context,
    ensures
        outs[r].data@ == row_of(t.data@, r, b.width as int),
        caches[r + 1].count == r + 1,
{
    let n = b.context as int;
    let c = b.width as int;
    let us = trs[r];
    let cache = caches[r + 1];
    assert(rows[r].is_sized(1, c));
    lemma_only_row(x, n, r, rows[r], c);
    lemma_start_row(b, x, tr, n, r, rows[r], us, 1, 0);
    lemma_cache_holds(b, m, x, tr, rows, caches, trs, outs, r + 1);
    assert forall|j: int, i: int| 0 <= j <= r && 0 <= i < c implies #[trigger] tr.k.data@[cell(
        j,
        i,
        c,
    )] == cache.k@[cell(j, i, c)] by {
        lemma_cell(j, i, r + 1, c);
    }
    assert forall|j: int, i: int| 0 <= j <= r && 0 <= i < c implies #[trigger] tr.v.data@[cell(
        j,
        i,
        c,
    )] == cache.v@[cell(j, i, c)] by {
        lemma_cell(j, i, r + 1, c);
    }
    assert forall|h: int| 0 <= h < b.heads implies #[trigger] head_part(
        tr.mixed.data@,
        r,
        h,
        c,
        b.head_dim(),
    ) == head_part(us.mixed.data@, 0, h, c, b.head_dim()) by {
        assert(b.attends(m, tr, r, h));
        lemma_looks_back(b, m, tr, r, h);
        assert(b.attends_cached(m, us.q.data@, cache, us.weights@, us.mixed.data@, h));
        lemma_cached_looks_back(b, m, tr, us, cache, r, h);
        let out = head_part(us.mixed.data@, 0, h, c, b.head_dim());
        let w = choose|w: Seq<F32>| #[trigger]
            looks_back(b, m, tr.q.data@, cache.k@, cache.v@, w, r, h, out);
        lemma_look_same(
            b,
            m,
            tr.q.data@,
            tr.k.data@,
            tr.v.data@,
            weights_in_view(b, tr, r, h),
            head_part(tr.mixed.data@, r, h, c, b.head_dim()),
            tr.q.data@,
            cache.k@,
            cache.v@,
            w,
            out,
            r,
            h,
        );
    }
    lemma_heads_row(b, tr.mixed, n, r, us.mixed, 1, 0);
    lemma_finish_row(b, x, tr, t, n, r, rows[r], us, outs[r], 1, 0);
    lemma_only_row(t, n, r, outs[r], c);
}

} // verus!
