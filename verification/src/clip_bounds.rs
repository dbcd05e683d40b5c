//! Clipped gradients keep to the limit. Of the norm this asks that it is accurate.
use crate::float::{
    lemma_code, lemma_magnitude_increases, lemma_round_exists, magnitude, round, F32,
};
use crate::optim::{is_clipped, joined_data, times};
use crate::quant::all_finite;
use crate::rounding::{lemma_miss, lemma_round_at_most};
use crate::softmax_shares::lemma_one;
use crate::tensor::Tensor;
use crate::train_steps::{clipped, joined_parts, times_all};
use vstd::arithmetic::power2::{lemma2_to64, lemma_pow2_pos, pow2};
use vstd::prelude::*;

verus! {

/// The sum of squares without rounding, in units of 2^-298.
pub open spec fn exact_squares(s: Seq<F32>) -> int
    decreases s.len(),
{
    if s.len() == 0 {
        0
    } else {
        exact_squares(s.drop_last()) + s.last().units() * s.last().units()
    }
}

/// The square of a norm is the sum of squares, up to the 2^20th part.
pub open spec fn is_accurate(s: Seq<F32>, norm: F32) -> bool {
    let square = norm.units() * norm.units();
    -square <= (exact_squares(s) - square) * 0x10_0000 <= square
}

/// The sum of squares is at most the square of a limit, up to the 2^18th part of it
/// and 2^21 units of 2^-298 for each number.
pub open spec fn keeps_to(s: Seq<F32>, max_norm: F32) -> bool {
    exact_squares(s) * 0x4_0000 <= 0x4_0001 * (max_norm.units() * max_norm.units()) + s.len()
        * 0x80_0000_0000
}

/// What clipping needs: the norm is finite and accurate, the limit is positive and
/// finite, and the factor is a normal number.
pub open spec fn can_be_kept(s: Seq<F32>, norm: F32, max_norm: F32) -> bool {
    &&& all_finite(s)
    &&& is_accurate(s, norm)
    &&& norm.finite_spec()
    &&& !norm.neg_spec()
    &&& (F32 { bits: 0 }).lt_spec(max_norm)
    &&& max_norm.finite_spec()
    &&& is_clipped(norm, max_norm) ==> max_norm.div_spec(norm).code_spec() >= 0x80_0000
}

proof fn lemma_magnitude(x: F32)
    requires
        x.finite_spec(),
    ensures
        x.mag() >= 0,
        x.units() * x.units() == x.mag() * x.mag(),
{
    lemma_code(0, 0);
    lemma2_to64();
    if x.code_spec() > 0 {
        lemma_magnitude_increases(0, x.code_spec());
    }
    let m = x.mag();
    assert(-m * -m == m * m) by (nonlinear_arith);
}

/// The square of a sum is at most a little more than the square of the large part
/// and a multiple of the square of the small part.
proof fn lemma_square_of_sum(z: int, u: int, v: int)
    requires
        0 <= z <= u + v,
        u >= 0,
        v >= 0,
    ensures
        (z * z) * 0x40_0000 <= (u * u) * 0x40_0001 + (v * v) * 0x1000_0040_0000,
{
    let w = u - v * 0x40_0000;
    assert(w * w >= 0) by (nonlinear_arith);
    assert(w * w == u * u - 0x80_0000 * (u * v) + (v * v) * 0x1000_0000_0000) by (nonlinear_arith)
        requires
            w == u - v * 0x40_0000,
    ;
    assert(z * z <= u * u + 2 * (u * v) + v * v) by (nonlinear_arith)
        requires
            0 <= z <= u + v,
            u >= 0,
            v >= 0,
    ;
}

/// The square of a number times a factor.
#[verifier::rlimit(60)]
#[verifier::spinoff_prover]
proof fn lemma_scaled_square(g: F32, k: F32)
    requires
        g.finite_spec(),
        k.finite_spec(),
        k.mag() <= pow2(149),
    ensures
        ({
            let r = g.mul_spec(k).units();
            let one = pow2(149) as int;
            ((r * r) * (one * one)) * 0x1_0000_0000_0000 <= 0x1_0000_0800_0000 * ((g.units()
                * g.units()) * (k.mag() * k.mag())) + 0x20_0000_0000_0000_0000int * (one * one)
        }),
{
    reveal(F32::mul_spec);
    lemma_magnitude(g);
    lemma_magnitude(k);
    lemma_pow2_pos(149);
    let p = pow2(149) as int;
    let a = g.mag();
    let b = k.mag();
    let num = a * b;
    assert(0 <= num <= a * p) by (nonlinear_arith)
        requires
            num == a * b,
            a >= 0,
            0 <= b <= p,
    ;
    lemma_round_at_most(num, p, g.code_spec());
    lemma_round_exists(num, p);
    let c = round(num, p);
    lemma_miss(num, p, c);
    let r = g.mul_spec(k);
    assert(r.code_spec() == c);
    lemma_magnitude(r);
    let m = r.mag();
    let mp = m * p;
    let z = mp * 0x100_0000;
    let u = num * 0x100_0001;
    let v = p * 0x80_0000;
    assert(mp >= 0) by (nonlinear_arith)
        requires
            mp == m * p,
            m >= 0,
            p > 0,
    ;
    lemma_square_of_sum(z, u, v);
    let pp = p * p;
    let nn = num * num;
    assert(z * z == (mp * mp) * 0x1_0000_0000_0000) by (nonlinear_arith)
        requires
            z == mp * 0x100_0000,
    ;
    assert(mp * mp == (m * m) * pp) by (nonlinear_arith)
        requires
            mp == m * p,
            pp == p * p,
    ;
    assert(u * u == nn * 0x1_0000_0200_0001) by (nonlinear_arith)
        requires
            u == num * 0x100_0001,
            nn == num * num,
    ;
    assert(v * v == pp * 0x4000_0000_0000) by (nonlinear_arith)
        requires
            v == p * 0x80_0000,
            pp == p * p,
    ;
    assert(nn == (a * a) * (b * b)) by (nonlinear_arith)
        requires
            nn == num * num,
            num == a * b,
    ;
    assert(nn >= 0 && pp >= 0) by (nonlinear_arith)
        requires
            nn == num * num,
            pp == p * p,
    ;
}

/// The sum of squares of numbers times a factor.
#[verifier::rlimit(60)]
#[verifier::spinoff_prover]
proof fn lemma_scaled_squares(s: Seq<F32>, k: F32)
    requires
        all_finite(s),
        k.finite_spec(),
        k.mag() <= pow2(149),
    ensures
        ({
            let one = pow2(149) as int;
            (exact_squares(times(s, k)) * (one * one)) * 0x1_0000_0000_0000 <= 0x1_0000_0800_0000
                * (exact_squares(s) * (k.mag() * k.mag())) + 0x20_0000_0000_0000_0000int * (s.len()
                * (one * one))
        }),
    decreases s.len(),
{
    let p = pow2(149) as int;
    let pp = p * p;
    let kk = k.mag() * k.mag();
    if s.len() > 0 {
        let d = s.drop_last();
        let last = s.last();
        assert(all_finite(d)) by {
            assert forall|j: int| 0 <= j < d.len() implies (#[trigger] d[j]).finite_spec() by {
                assert(d[j] == s[j]);
            }
        }
        assert(last.finite_spec());
        lemma_scaled_squares(d, k);
        lemma_scaled_square(last, k);
        let t = times(s, k);
        assert(t.drop_last() =~= times(d, k));
        assert(t.last() == last.mul_spec(k));
        let (x, y) = (exact_squares(times(d, k)), t.last().units() * t.last().units());
        let (e, f) = (exact_squares(d), last.units() * last.units());
        assert((x + y) * pp == x * pp + y * pp) by (nonlinear_arith);
        assert((e + f) * kk == e * kk + f * kk) by (nonlinear_arith);
        let n = d.len() as int;
        assert((n + 1) * pp == n * pp + pp) by (nonlinear_arith);
        assert(s.len() == n + 1);
    } else {
        assert(times(s, k).len() == 0);
        assert(0 * pp == 0 && 0 * kk == 0) by (nonlinear_arith);
    }
}

/// A factor times the norm is the limit, up to rounding.
#[verifier::rlimit(60)]
#[verifier::spinoff_prover]
proof fn lemma_factor(norm: F32, max_norm: F32)
    requires
        is_clipped(norm, max_norm),
        max_norm.div_spec(norm).code_spec() >= 0x80_0000,
    ensures
        ({
            let k = max_norm.div_spec(norm);
            let one = pow2(149) as int;
            &&& k.finite_spec()
            &&& 0 <= k.mag() <= one
            &&& (k.mag() * norm.mag()) * 0x40_0000 <= (max_norm.mag() * one) * 0x40_0001
        }),
{
    reveal(F32::div_spec);
    lemma2_to64();
    lemma_pow2_pos(149);
    lemma_magnitude(norm);
    lemma_magnitude(max_norm);
    let p = pow2(149) as int;
    let x = max_norm.mag();
    let n = norm.mag();
    lemma_magnitude_increases(max_norm.code_spec(), norm.code_spec());
    let top = 127 * 0x80_0000int;
    lemma_one();
    let num = x * p;
    assert(0 <= num <= magnitude(top) * n) by (nonlinear_arith)
        requires
            num == x * p,
            magnitude(top) == p,
            0 <= x <= n,
            p > 0,
    ;
    lemma_round_at_most(num, n, top);
    lemma_round_exists(num, n);
    let c = round(num, n);
    let k = max_norm.div_spec(norm);
    assert(k.code_spec() == c);
    lemma_miss(num, n, c);
    if c < top {
        lemma_magnitude_increases(c, top);
    }
    lemma_magnitude(k);
    lemma_code(0x80_0000, 0);
    if c > 0x80_0000 {
        lemma_magnitude_increases(0x80_0000, c);
    }
    let m = k.mag();
    assert(m * n >= 0x80_0000 * n) by (nonlinear_arith)
        requires
            m >= 0x80_0000,
            n > 0,
    ;
}

/// From the parts to the whole.
#[verifier::rlimit(60)]
#[verifier::spinoff_prover]
proof fn lemma_limit(after: int, before: int, k: int, n: int, x: int, p: int, len: int)
    requires
        p > 0,
        k >= 0,
        n >= 0,
        x >= 0,
        len >= 0,
        (after * (p * p)) * 0x1_0000_0000_0000 <= 0x1_0000_0800_0000 * (before * (k * k))
            + 0x20_0000_0000_0000_0000int * (len * (p * p)),
        (before - n * n) * 0x10_0000 <= n * n,
        (k * n) * 0x40_0000 <= (x * p) * 0x40_0001,
    ensures
        after * 0x4_0000 <= 0x4_0001 * (x * x) + len * 0x80_0000_0000,
{
    let pp = p * p;
    let w = before * (k * k);
    let kn = k * n;
    let v = kn * kn;
    let xp = x * p;
    let u = xp * xp;
    assert(w * 0x10_0000 <= v * 0x10_0001) by (nonlinear_arith)
        requires
            w == before * (k * k),
            v == kn * kn,
            kn == k * n,
            before * 0x10_0000 <= (n * n) * 0x10_0001,
    ;
    assert(kn >= 0 && xp >= 0) by (nonlinear_arith)
        requires
            kn == k * n,
            xp == x * p,
            k >= 0,
            n >= 0,
            x >= 0,
            p > 0,
    ;
    assert(v * 0x1000_0000_0000 <= u * 0x1000_0080_0001) by (nonlinear_arith)
        requires
            v == kn * kn,
            u == xp * xp,
            kn >= 0,
            xp >= 0,
            kn * 0x40_0000 <= xp * 0x40_0001,
    ;
    let xx = x * x;
    assert(u == xx * pp) by (nonlinear_arith)
        requires
            u == xp * xp,
            xp == x * p,
            xx == x * x,
            pp == p * p,
    ;
    assert(u >= 0 && v >= 0) by (nonlinear_arith)
        requires
            u == xp * xp,
            v == kn * kn,
    ;
    let g = after * pp;
    let l = len * pp;
    assert(g * 0x4_0000 <= 0x4_0001 * u + l * 0x80_0000_0000);
    let most = 0x4_0001 * xx + len * 0x80_0000_0000;
    assert((after * 0x4_0000) * pp == g * 0x4_0000) by (nonlinear_arith)
        requires
            g == after * pp,
    ;
    assert(most * pp == 0x4_0001 * u + l * 0x80_0000_0000) by (nonlinear_arith)
        requires
            most == 0x4_0001 * xx + len * 0x80_0000_0000,
            u == xx * pp,
            l == len * pp,
    ;
    assert(after * 0x4_0000 <= most) by (nonlinear_arith)
        requires
            (after * 0x4_0000) * pp <= most * pp,
            pp == p * p,
            p > 0,
    ;
}

/// Numbers of an accurate norm, clipped, keep to the limit.
proof fn lemma_clipped(s: Seq<F32>, norm: F32, max_norm: F32)
    requires
        can_be_kept(s, norm, max_norm),
    ensures
        keeps_to(
            if is_clipped(norm, max_norm) {
                times(s, max_norm.div_spec(norm))
            } else {
                s
            },
            max_norm,
        ),
{
    lemma_pow2_pos(149);
    lemma_magnitude(norm);
    lemma_magnitude(max_norm);
    let (n, x) = (norm.mag(), max_norm.mag());
    if is_clipped(norm, max_norm) {
        let k = max_norm.div_spec(norm);
        lemma_factor(norm, max_norm);
        lemma_scaled_squares(s, k);
        lemma_limit(
            exact_squares(times(s, k)),
            exact_squares(s),
            k.mag(),
            n,
            x,
            pow2(149) as int,
            s.len() as int,
        );
    } else {
        if norm.code_spec() < max_norm.code_spec() {
            lemma_magnitude_increases(norm.code_spec(), max_norm.code_spec());
        }
        assert(n * n <= x * x && x * x >= 0) by (nonlinear_arith)
            requires
                0 <= n <= x,
        ;
    }
}

/// Tensors that were scaled hold the scaled numbers.
proof fn lemma_joined(before: Seq<Tensor>, after: Seq<Tensor>, f: F32, n: nat)
    requires
        n <= before.len() == after.len(),
        forall|i: int|
            0 <= i < before.len() ==> (#[trigger] after[i]).data@ == times(before[i].data@, f),
    ensures
        joined_data(after, n) == times(joined_data(before, n), f),
    decreases n,
{
    if n > 0 {
        lemma_joined(before, after, f, (n - 1) as nat);
        assert(after[n - 1].data@ == times(before[n - 1].data@, f));
    }
    assert(joined_data(after, n) =~= times(joined_data(before, n), f));
}

/// Tensors that stay hold the same numbers.
proof fn lemma_joined_same(before: Seq<Tensor>, after: Seq<Tensor>, n: nat)
    requires
        n <= before.len() == after.len(),
        forall|i: int| 0 <= i < before.len() ==> (#[trigger] after[i]).data@ == before[i].data@,
    ensures
        joined_data(after, n) == joined_data(before, n),
    decreases n,
{
    if n > 0 {
        lemma_joined_same(before, after, (n - 1) as nat);
        assert(after[n - 1].data@ == before[n - 1].data@);
    }
}

/// Gradients that `clip_grad_norm` leaves have a norm of at most the limit, up to
/// rounding. A limit that is not positive, and a norm that is not finite, are none.
pub proof fn clipped_gradients_keep_to_the_limit(
    before: Seq<Tensor>,
    after: Seq<Tensor>,
    norm: F32,
    max_norm: F32,
)
    requires
        after.len() == before.len(),
        forall|i: int|
            0 <= i < before.len() ==> (#[trigger] after[i]).data@ == if is_clipped(norm, max_norm) {
                times(before[i].data@, max_norm.div_spec(norm))
            } else {
                before[i].data@
            },
        can_be_kept(joined_data(before, before.len()), norm, max_norm),
    ensures
        keeps_to(joined_data(after, after.len()), max_norm),
{
    lemma_clipped(joined_data(before, before.len()), norm, max_norm);
    if is_clipped(norm, max_norm) {
        lemma_joined(before, after, max_norm.div_spec(norm), before.len());
    } else {
        lemma_joined_same(before, after, before.len());
    }
}

/// Parts that were scaled hold the scaled numbers.
proof fn lemma_parts(p: Seq<Seq<F32>>, f: F32, n: nat)
    requires
        n <= p.len(),
    ensures
        joined_parts(times_all(p, f), n) == times(joined_parts(p, n), f),
    decreases n,
{
    if n > 0 {
        lemma_parts(p, f, (n - 1) as nat);
        assert(times_all(p, f)[n - 1] == times(p[n - 1], f));
    }
    assert(joined_parts(times_all(p, f), n) =~= times(joined_parts(p, n), f));
}

/// As `clipped_gradients_keep_to_the_limit`, for the gradients of a trainer.
pub proof fn clipped_parts_keep_to_the_limit(p: Seq<Seq<F32>>, norm: F32, max_norm: F32)
    requires
        can_be_kept(joined_parts(p, p.len()), norm, max_norm),
    ensures
        keeps_to(
            joined_parts(clipped(p, norm, max_norm), clipped(p, norm, max_norm).len()),
            max_norm,
        ),
{
    lemma_clipped(joined_parts(p, p.len()), norm, max_norm);
    if is_clipped(norm, max_norm) {
        lemma_parts(p, max_norm.div_spec(norm), p.len());
    }
}

} // verus!
