//! Scaled dot-product attention of one query over a run of positions.
use crate::float::{
    lemma_code, lemma_magnitude_increases, lemma_round_unique, magnitude, nearest, of_int, F32,
};
use crate::math::{is_exp, Math};
use crate::ops::{dot, is_softmax, max_of, softmax, softmax_via, sum_of};
use vstd::arithmetic::power2::{lemma2_to64, pow2};
use vstd::prelude::*;

verus! {

/// Bit pattern of -1e9, the score of a position that must not be seen.
pub const MASKED_BITS: u32 = 0xce6e_6b28;

/// The scores of a query against `keys` positions, `stride` apart; positions
/// from `visible` on are masked.
pub open spec fn scores_of(
    q: Seq<F32>,
    q0: int,
    k: Seq<F32>,
    k0: int,
    stride: int,
    hd: int,
    keys: int,
    visible: int,
    scale: F32,
) -> Seq<F32> {
    Seq::new(
        keys as nat,
        |j: int|
            if j < visible {
                dot(F32 { bits: 0 }, q, q0, k, k0 + j * stride, 1, hd as nat).mul_spec(scale)
            } else {
                F32 { bits: MASKED_BITS }
            },
    )
}

/// The values of the positions, weighted by `w` and added up.
pub open spec fn mix_of(w: Seq<F32>, v: Seq<F32>, v0: int, stride: int, hd: int) -> Seq<F32> {
    Seq::new(hd as nat, |d: int| dot(F32 { bits: 0 }, w, 0, v, v0 + d, stride, w.len()))
}

/// One over the square root of the head size.
pub open spec fn head_scale_of(hd: int) -> F32 {
    F32 { bits: 0x3f80_0000 }.div_spec(of_int(hd).sqrt_spec())
}

/// One over the square root of the head size.
pub fn head_scale(hd: usize) -> (s: F32)
    ensures
        s == head_scale_of(hd as int),
{
    F32::one().div(F32::from_u64(hd as u64).sqrt())
}

/// Sum of products, from left to right.
pub fn dot_product(
    init: F32,
    a: &[F32],
    a0: usize,
    b: &[F32],
    b0: usize,
    step: usize,
    p: usize,
) -> (r: F32)
    requires
        a0 + p <= a@.len(),
        p > 0 ==> b0 + (p - 1) * step < b@.len(),
    ensures
        r == dot(init, a@, a0 as int, b@, b0 as int, step as int, p as nat),
{
    let mut acc: F32 = init;
    let mut t: usize = 0;
    let mut at: usize = b0;
    let la: usize = a.len();
    let lb: usize = b.len();
    while t < p
        invariant
            t <= p,
            a0 + p <= a@.len() == la,
            lb == b@.len(),
            p > 0 ==> b0 + (p - 1) * step < b@.len(),
            t < p ==> at == b0 + t * step,
            acc == dot(init, a@, a0 as int, b@, b0 as int, step as int, t as nat),
        decreases p - t,
    {
        proof {
            assert(t * step <= (p - 1) * step) by (nonlinear_arith)
                requires
                    t <= p - 1,
                    step >= 0,
            ;
        }
        acc = acc.add(a[a0 + t].mul(b[at]));
        t = t + 1;
        if t < p {
            proof {
                assert(t * step == (t - 1) * step + step) by (nonlinear_arith);
                assert(t * step <= (p - 1) * step) by (nonlinear_arith)
                    requires
                        t <= p - 1,
                        step >= 0,
                ;
            }
            at = at + step;
        }
    }
    acc
}

/// Attention of one head: the weights of the positions, and their mixed values.
pub fn attend_head<M: Math>(
    m: &M,
    q: &[F32],
    q0: usize,
    k: &[F32],
    v: &[F32],
    kv0: usize,
    stride: usize,
    hd: usize,
    keys: usize,
    visible: usize,
    scale: F32,
) -> (r: (Vec<F32>, Vec<F32>))
    requires
        q0 + hd <= q@.len(),
        keys > 0 ==> kv0 + (keys - 1) * stride + hd <= k@.len(),
        keys > 0 ==> kv0 + (keys - 1) * stride + hd <= v@.len(),
        kv0 + hd <= usize::MAX,
    ensures
        is_softmax(
            m,
            scores_of(
                q@,
                q0 as int,
                k@,
                kv0 as int,
                stride as int,
                hd as int,
                keys as int,
                visible as int,
                scale,
            ),
            r.0@,
        ),
        r.1@ == mix_of(r.0@, v@, kv0 as int, stride as int, hd as int),
{
    let lk: usize = k.len();
    let mut scores: Vec<F32> = Vec::with_capacity(keys);
    let mut j: usize = 0;
    let mut at: usize = kv0;
    while j < keys
        invariant
            j <= keys,
            q0 + hd <= q@.len(),
            lk == k@.len(),
            keys > 0 ==> kv0 + (keys - 1) * stride + hd <= k@.len(),
            j < keys ==> at == kv0 + j * stride,
            scores@.len() == j,
            forall|x: int|
                0 <= x < j ==> #[trigger] scores@[x] == scores_of(
                    q@,
                    q0 as int,
                    k@,
                    kv0 as int,
                    stride as int,
                    hd as int,
                    keys as int,
                    visible as int,
                    scale,
                )[x],
        decreases keys - j,
    {
        if j < visible {
            proof {
                assert(j * stride <= (keys - 1) * stride) by (nonlinear_arith)
                    requires
                        j <= keys - 1,
                        stride >= 0,
                ;
                assert((hd - 1) * 1 == hd - 1);
            }
            let s: F32 = dot_product(F32::zero(), q, q0, k, at, 1, hd).mul(scale);
            scores.push(s);
        } else {
            scores.push(F32 { bits: MASKED_BITS });
        }
        j = j + 1;
        if j < keys {
            proof {
                assert(j * stride == (j - 1) * stride + stride) by (nonlinear_arith);
                assert(j * stride <= (keys - 1) * stride) by (nonlinear_arith)
                    requires
                        j <= keys - 1,
                        stride >= 0,
                ;
            }
            at = at + stride;
        }
    }
    let ghost expected = scores_of(
        q@,
        q0 as int,
        k@,
        kv0 as int,
        stride as int,
        hd as int,
        keys as int,
        visible as int,
        scale,
    );
    assert(scores@ =~= expected);
    let w: Vec<F32> = softmax(m, scores.as_slice());
    let mut out: Vec<F32> = Vec::with_capacity(hd);
    let mut d: usize = 0;
    while d < hd
        invariant
            d <= hd,
            w@.len() == keys,
            kv0 + hd <= usize::MAX,
            keys > 0 ==> kv0 + (keys - 1) * stride + hd <= v@.len(),
            out@.len() == d,
            forall|x: int|
                0 <= x < d ==> #[trigger] out@[x] == dot(
                    F32 { bits: 0 },
                    w@,
                    0,
                    v@,
                    kv0 + x,
                    stride as int,
                    keys as nat,
                ),
        decreases hd - d,
    {
        let s: F32 = dot_product(F32::zero(), w.as_slice(), 0, v, kv0 + d, stride, keys);
        out.push(s);
        d = d + 1;
    }
    assert(out@ =~= mix_of(w@, v@, kv0 as int, stride as int, hd as int));
    (w, out)
}

/// Sums of products agree where the factors do.
proof fn lemma_dot_agrees(init: F32, a: Seq<F32>, a0: int, b: Seq<F32>, c: Seq<F32>, b0: int, n: nat)
    requires
        forall|d: int| 0 <= d < n ==> #[trigger] b[b0 + d] == c[b0 + d],
    ensures
        dot(init, a, a0, b, b0, 1, n) == dot(init, a, a0, c, b0, 1, n),
    decreases n,
{
    if n > 0 {
        lemma_dot_agrees(init, a, a0, b, c, b0, (n - 1) as nat);
        assert(b[b0 + (n - 1)] == c[b0 + (n - 1)]);
    }
}

/// The scores of a query do not depend on the keys of positions that it must not
/// see.
pub proof fn scores_do_not_look_ahead(
    q: Seq<F32>,
    q0: int,
    k: Seq<F32>,
    l: Seq<F32>,
    k0: int,
    stride: int,
    hd: int,
    keys: int,
    visible: int,
    scale: F32,
)
    requires
        hd >= 0,
        forall|j: int, d: int|
            0 <= j < visible && 0 <= d < hd ==> #[trigger] k[k0 + j * stride + d] == l[k0 + j * stride
                + d],
    ensures
        scores_of(q, q0, k, k0, stride, hd, keys, visible, scale) == scores_of(
            q,
            q0,
            l,
            k0,
            stride,
            hd,
            keys,
            visible,
            scale,
        ),
{
    let a = scores_of(q, q0, k, k0, stride, hd, keys, visible, scale);
    let b = scores_of(q, q0, l, k0, stride, hd, keys, visible, scale);
    assert forall|j: int| 0 <= j < a.len() implies a[j] == b[j] by {
        if j < visible {
            let b0 = k0 + j * stride;
            assert forall|d: int| 0 <= d < hd implies #[trigger] k[b0 + d] == l[b0 + d] by {
                assert(k[k0 + j * stride + d] == l[k0 + j * stride + d]);
            }
            lemma_dot_agrees(F32 { bits: 0 }, q, q0, k, l, b0, hd as nat);
        }
    }
    assert(a =~= b);
}

/// A position whose exponential is zero has no weight: its share is zero, unless
/// none of the shares is finite.
pub proof fn vanishing_scores_have_no_weight<M: Math>(m: &M, x: Seq<F32>, y: Seq<F32>, j: int)
    requires
        is_softmax(m, x, y),
        0 <= j < x.len(),
        forall|e: F32| #[trigger] is_exp(m, x[j].sub_spec(max_of(x)), e) ==> e.zero_spec(),
    ensures
        y[j].zero_spec() || forall|i: int| 0 <= i < y.len() ==> !(#[trigger] y[i]).finite_spec(),
{
    reveal(F32::div_spec);
    let e = choose|e: Seq<F32>| softmax_via(m, x, e, y);
    assert(is_exp(m, x[j].sub_spec(max_of(x)), e[j]));
    let total = sum_of(e);
    lemma_zero_quotient(e[j], total);
    assert(y[j] == e[j].div_spec(total));
    if total.nan_spec() || total.zero_spec() {
        assert forall|i: int| 0 <= i < y.len() implies !(#[trigger] y[i]).finite_spec() by {
            assert(y[i] == e[i].div_spec(total));
        }
    }
}

/// Zero over a number that is not zero is zero.
pub(crate) proof fn lemma_zero_quotient(z: F32, b: F32)
    requires
        z.zero_spec(),
    ensures
        b.nan_spec() || b.zero_spec() || z.div_spec(b).zero_spec(),
{
    reveal(F32::div_spec);
    if !b.nan_spec() && !b.zero_spec() && !b.inf_spec() {
        lemma_code(0, 0);
        lemma2_to64();
        lemma_magnitude_increases(0, b.code_spec());
        lemma_magnitude_increases(0, 1);
        let den = b.mag();
        assert(z.mag() == 0);
        assert(0 * pow2(149) == 0) by (nonlinear_arith);
        assert(nearest(0, den, 0)) by {
            assert((magnitude(0) + magnitude(1)) * den > 0) by (nonlinear_arith)
                requires
                    magnitude(0) + magnitude(1) > 0,
                    den > 0,
            ;
        }
        lemma_round_unique(0, den, 0);
    }
}

} // verus!
