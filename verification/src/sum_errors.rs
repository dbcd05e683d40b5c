//! How far sums, means and sums of squares miss the exact ones.
use crate::float::{lemma_code, of_int, F32};
use crate::float_errors::{
    lemma_add_miss, lemma_bounded_product, lemma_cancel, lemma_div_miss, lemma_mul_miss,
    lemma_of_int_miss, lemma_size_product, lemma_sqrt_miss, lemma_sub_miss, lemma_unit, lemma_value,
    size, unit,
};
use crate::ops::{dot, sum_of};
use crate::quant::all_finite;
use crate::softmax_shares::exact_sum;
use vstd::arithmetic::power2::lemma2_to64;
use vstd::prelude::*;

verus! {

/// The sum of sizes without rounding.
pub open spec fn exact_sizes(s: Seq<F32>) -> int
    decreases s.len(),
{
    if s.len() == 0 {
        0
    } else {
        exact_sizes(s.drop_last()) + size(s.last().units())
    }
}

/// The sum of squared distances to a number, without rounding, in units of 2^-298.
pub open spec fn exact_spread(s: Seq<F32>, mean: F32) -> int
    decreases s.len(),
{
    if s.len() == 0 {
        0
    } else {
        exact_spread(s.drop_last(), mean) + (s.last().units() - mean.units()) * (s.last().units()
            - mean.units())
    }
}

/// A finite sum has finite parts.
pub(crate) proof fn lemma_add_parts(a: F32, b: F32)
    requires
        a.add_spec(b).finite_spec(),
    ensures
        a.finite_spec(),
        b.finite_spec(),
{
    reveal(F32::add_spec);
}

/// A finite difference has finite parts.
pub(crate) proof fn lemma_sub_parts(a: F32, b: F32)
    requires
        a.sub_spec(b).finite_spec(),
    ensures
        a.finite_spec(),
        b.finite_spec(),
{
    lemma_add_parts(a, b.negated());
}

/// A finite product has finite parts.
pub(crate) proof fn lemma_mul_parts(a: F32, b: F32)
    requires
        a.mul_spec(b).finite_spec(),
    ensures
        a.finite_spec(),
        b.finite_spec(),
{
    reveal(F32::mul_spec);
}

/// A finite quotient has a finite dividend, and its divisor is a number that is not
/// zero.
pub(crate) proof fn lemma_div_parts(a: F32, b: F32)
    requires
        a.div_spec(b).finite_spec(),
    ensures
        a.finite_spec(),
        !b.zero_spec(),
        !b.nan_spec(),
{
    reveal(F32::div_spec);
}

/// A finite sum misses the exact one by at most the 2^23th part of the sizes for
/// each number.
#[verifier::rlimit(60)]
#[verifier::spinoff_prover]
pub(crate) proof fn lemma_sum_miss(s: Seq<F32>)
    requires
        sum_of(s).finite_spec(),
        s.len() <= 0x10_0000,
    ensures
        all_finite(s),
        exact_sizes(s) >= 0,
        size(exact_sum(s)) <= exact_sizes(s),
        size(sum_of(s).units() - exact_sum(s)) * 0x80_0000 <= s.len() * exact_sizes(s),
    decreases s.len(),
{
    lemma_code(0, 0);
    lemma2_to64();
    if s.len() > 0 {
        let init = s.drop_last();
        let last = s.last();
        let before = sum_of(init);
        assert(sum_of(s) == before.add_spec(last));
        lemma_add_parts(before, last);
        lemma_sum_miss(init);
        lemma_add_miss(before, last);
        lemma_value(last);
        assert forall|i: int| 0 <= i < s.len() implies (#[trigger] s[i]).finite_spec() by {
            if i < init.len() {
                assert(init[i] == s[i]);
            }
        }
        let n = s.len() as int;
        let (a0, a1) = (exact_sizes(init), exact_sizes(s));
        assert((n - 1) * a0 <= 0x10_0000 * a0) by (nonlinear_arith)
            requires
                n - 1 <= 0x10_0000,
                a0 >= 0,
        ;
        assert(n * a1 >= (n - 1) * a0 + a1) by (nonlinear_arith)
            requires
                n >= 1,
                a1 >= a0,
                a0 >= 0,
        ;
        assert(size(before.units() + last.units()) <= 2 * a1);
    }
}

/// The exact spread is not negative.
pub(crate) proof fn lemma_spread_sign(s: Seq<F32>, mean: F32)
    ensures
        exact_spread(s, mean) >= 0,
    decreases s.len(),
{
    if s.len() > 0 {
        lemma_spread_sign(s.drop_last(), mean);
        let d = s.last().units() - mean.units();
        assert(d * d >= 0) by (nonlinear_arith);
    }
}

/// A squared distance misses the exact one by at most four parts in 2^24 and half of
/// the least magnitude.
#[verifier::rlimit(60)]
#[verifier::spinoff_prover]
pub(crate) proof fn lemma_square_miss(x: F32, mean: F32, q: F32)
    requires
        q == x.sub_spec(mean).mul_spec(x.sub_spec(mean)),
        q.finite_spec(),
    ensures
        x.finite_spec(),
        mean.finite_spec(),
        q.units() >= 0,
        ({
            let d = x.units() - mean.units();
            size(q.units() * unit() - d * d) * 0x100_0000 <= 4 * (d * d) + 0x80_0000 * unit()
        }),
{
    let e = x.sub_spec(mean);
    lemma_mul_parts(e, e);
    lemma_sub_parts(x, mean);
    lemma_sub_miss(x, mean);
    lemma_mul_miss(e, e);
    lemma_value(q);
    lemma_unit();
    let d = x.units() - mean.units();
    let f = e.units();
    let g = f - d;
    let (dd, ff, dg, gg) = (d * d, f * f, d * g, g * g);
    assert(ff == dd + 2 * dg + gg) by (nonlinear_arith)
        requires
            ff == f * f,
            f == d + g,
            dd == d * d,
            dg == d * g,
            gg == g * g,
    ;
    lemma_bounded_product(d, g * 0x100_0000, size(d), size(d));
    lemma_bounded_product(g * 0x100_0000, g * 0x100_0000, size(d), size(d));
    assert(size(d) * size(d) == dd) by (nonlinear_arith)
        requires
            dd == d * d,
            size(d) == d || size(d) == -d,
    ;
    assert(d * (g * 0x100_0000) == dg * 0x100_0000) by (nonlinear_arith)
        requires
            dg == d * g,
    ;
    assert((g * 0x100_0000) * (g * 0x100_0000) == gg * 0x1_0000_0000_0000) by (nonlinear_arith)
        requires
            gg == g * g,
    ;
    assert(gg >= 0 && ff >= 0) by (nonlinear_arith)
        requires
            gg == g * g,
            ff == f * f,
    ;
}

/// The exact sum of squared distances against the sum of the rounded ones.
#[verifier::rlimit(60)]
#[verifier::spinoff_prover]
proof fn lemma_squares_sum(s: Seq<F32>, mean: F32, q: Seq<F32>)
    requires
        q.len() == s.len(),
        all_finite(q),
        forall|i: int|
            0 <= i < s.len() ==> #[trigger] q[i] == s[i].sub_spec(mean).mul_spec(
                s[i].sub_spec(mean),
            ),
    ensures
        all_finite(s),
        s.len() > 0 ==> mean.finite_spec(),
        exact_sum(q) >= 0,
        exact_sizes(q) == exact_sum(q),
        size(exact_sum(q) * unit() - exact_spread(s, mean)) * 0x100_0000 <= 4 * exact_spread(s, mean)
            + s.len() * (0x80_0000 * unit()),
    decreases s.len(),
{
    let p = unit();
    lemma_unit();
    if s.len() > 0 {
        let (s0, q0) = (s.drop_last(), q.drop_last());
        assert forall|i: int| 0 <= i < q0.len() implies (#[trigger] q0[i]).finite_spec() by {
            assert(q0[i] == q[i]);
        }
        assert forall|i: int| 0 <= i < s0.len() implies #[trigger] q0[i] == s0[i].sub_spec(
            mean,
        ).mul_spec(s0[i].sub_spec(mean)) by {
            assert(q0[i] == q[i]);
        }
        lemma_squares_sum(s0, mean, q0);
        let n = s.len() - 1;
        assert(q[n] == q.last() && s[n] == s.last());
        lemma_square_miss(s.last(), mean, q.last());
        assert forall|i: int| 0 <= i < s.len() implies (#[trigger] s[i]).finite_spec() by {
            if i < s0.len() {
                assert(s0[i] == s[i]);
            }
        }
        let (a, b) = (exact_sum(q0), q.last().units());
        assert((a + b) * p == a * p + b * p) by (nonlinear_arith);
        let w = 0x80_0000 * p;
        assert((n + 1) * w == n * w + w) by (nonlinear_arith);
        assert(s.len() == n + 1);
    } else {
        assert(0 * p == 0 && 0 * (0x80_0000 * p) == 0) by (nonlinear_arith);
    }
}

/// A finite sum of squared distances misses the exact one by little.
#[verifier::rlimit(60)]
#[verifier::spinoff_prover]
pub(crate) proof fn lemma_spread_miss(s: Seq<F32>, mean: F32, q: Seq<F32>)
    requires
        0 < s.len() <= 0x10_0000,
        q.len() == s.len(),
        sum_of(q).finite_spec(),
        forall|i: int|
            0 <= i < s.len() ==> #[trigger] q[i] == s[i].sub_spec(mean).mul_spec(
                s[i].sub_spec(mean),
            ),
    ensures
        all_finite(s),
        mean.finite_spec(),
        sum_of(q).units() >= 0,
        exact_spread(s, mean) >= 0,
        size(sum_of(q).units() * unit() - exact_spread(s, mean)) * 0x40_0000 <= (s.len() + 4)
            * exact_spread(s, mean) + s.len() * (0x80_0000 * unit()),
{
    lemma_unit();
    lemma_sum_miss(q);
    lemma_squares_sum(s, mean, q);
    lemma_spread_sign(s, mean);
    let p = unit();
    let n = s.len() as int;
    let t = exact_spread(s, mean);
    let e = exact_sum(q);
    let u = sum_of(q).units();
    let ep = e * p;
    let up = u * p;
    // The sum against the exact sum of the rounded squares.
    let g = u - e;
    let ne = n * e;
    assert(size(g * p) * 0x80_0000 <= ne * p) by {
        assert(-(ne * p) <= (g * 0x80_0000) * p && (g * 0x80_0000) * p <= ne * p) by (nonlinear_arith)
            requires
                -ne <= g * 0x80_0000 <= ne,
                p > 0,
        ;
        assert((g * 0x80_0000) * p == (g * p) * 0x80_0000) by (nonlinear_arith);
    }
    assert(g * p == up - ep) by (nonlinear_arith)
        requires
            g == u - e,
            up == u * p,
            ep == e * p,
    ;
    let np = n * p;
    let nt = n * t;
    assert(n * (0x80_0000 * p) == 0x80_0000 * np) by (nonlinear_arith)
        requires
            np == n * p,
    ;
    assert(ne * p == n * ep) by (nonlinear_arith)
        requires
            ne == n * e,
            ep == e * p,
    ;
    // ep <= t + (4 t + 2^23 n p) / 2^24
    assert(ep * 0x100_0000 <= 0x100_0004 * t + 0x80_0000 * np);
    assert(n * ep * 0x100_0000 <= 0x100_0004 * nt + 0x80_0000 * (n * np)) by (nonlinear_arith)
        requires
            ep * 0x100_0000 <= 0x100_0004 * t + 0x80_0000 * np,
            nt == n * t,
            n >= 0,
    ;
    assert(n * np <= 0x10_0000 * np) by (nonlinear_arith)
        requires
            n <= 0x10_0000,
            np >= 0,
            n >= 0,
            np == n * p,
            p > 0,
    ;
    assert((n + 4) * t == nt + 4 * t) by (nonlinear_arith)
        requires
            nt == n * t,
    ;
    assert(nt <= 0x10_0000 * t && nt >= 0 && np >= 0) by (nonlinear_arith)
        requires
            nt == n * t,
            0 <= n <= 0x10_0000,
            t >= 0,
            np == n * p,
            p > 0,
    ;
    assert forall|i: int| 0 <= i < q.len() implies (#[trigger] q[i]).units() >= 0 by {
        lemma_square_miss(s[i], mean, q[i]);
    }
    lemma_sum_sign(q);
}

/// A sum of numbers that are not negative is not negative.
pub(crate) proof fn lemma_sum_sign(q: Seq<F32>)
    requires
        sum_of(q).finite_spec(),
        forall|i: int| 0 <= i < q.len() ==> (#[trigger] q[i]).units() >= 0,
    ensures
        sum_of(q).units() >= 0,
    decreases q.len(),
{
    lemma_code(0, 0);
    lemma2_to64();
    if q.len() > 0 {
        let init = q.drop_last();
        let before = sum_of(init);
        let last = q.last();
        lemma_add_parts(before, last);
        assert forall|i: int| 0 <= i < init.len() implies (#[trigger] init[i]).units() >= 0 by {
            assert(init[i] == q[i]);
        }
        lemma_sum_sign(init);
        assert(q[q.len() - 1].units() >= 0);
        lemma_add_miss(before, last);
    }
}

/// A finite mean: times the count it is the sum, up to rounding.
#[verifier::rlimit(60)]
#[verifier::spinoff_prover]
pub(crate) proof fn lemma_over_count(a: F32, n: int)
    requires
        0 < n < 0x1_0000_0000_0000_0000,
        a.div_spec(of_int(n)).finite_spec(),
    ensures
        a.finite_spec(),
        ({
            let v = a.div_spec(of_int(n));
            &&& size(v.units() * n - a.units()) * 0x40_0000 <= size(a.units()) + 0x40_0000 * n
            &&& a.units() >= 0 && !a.neg_spec() ==> v.units() >= 0 && !v.neg_spec()
        }),
{
    lemma_unit();
    lemma_of_int_miss(n);
    let c = of_int(n);
    lemma_value(c);
    lemma_div_parts(a, c);
    lemma_div_miss(a, c);
    let v = a.div_spec(c);
    lemma_value(v);
    lemma_value(a);
    let p = unit();
    let (x, y, k) = (v.units(), a.units(), c.units());
    let np = n * p;
    // k is n p (1 + e): x k against y p.
    let g = k - np;
    let xk = x * k;
    let xg = x * g;
    let xn = x * n;
    assert(xk == xn * p + xg) by (nonlinear_arith)
        requires
            xk == x * k,
            g == k - np,
            np == n * p,
            xn == x * n,
            xg == x * g,
    ;
    lemma_bounded_product(x, g * 0x100_0000, size(x), np);
    assert(x * (g * 0x100_0000) == xg * 0x100_0000) by (nonlinear_arith)
        requires
            xg == x * g,
    ;
    let sxn = size(x) * n;
    assert(size(x) * np == sxn * p) by (nonlinear_arith)
        requires
            np == n * p,
            sxn == size(x) * n,
    ;
    assert(size(xn) == sxn) by (nonlinear_arith)
        requires
            xn == x * n,
            sxn == size(x) * n,
            size(x) == x && x >= 0 || size(x) == -x && x <= 0,
            n > 0,
            size(xn) == xn && xn >= 0 || size(xn) == -xn && xn <= 0,
    ;
    // size(xk - y p) 2^24 <= size(y) p + 2^23 k, and k <= 2 n p.
    let gap = xn - y;
    assert(gap * p == xk - xg - y * p) by (nonlinear_arith)
        requires
            gap == xn - y,
            xk == xn * p + xg,
    ;
    let sy = size(y);
    let syp = sy * p;
    let sxnp = sxn * p;
    assert(size(gap * p) * 0x100_0000 <= syp + 0x100_0000 * np + sxnp);
    // sxn <= size(gap) + sy
    assert(sxn <= size(gap) + sy);
    let sg = size(gap);
    assert(size(gap * p) == sg * p) by (nonlinear_arith)
        requires
            sg == gap && gap >= 0 || sg == -gap && gap <= 0,
            p > 0,
            size(gap * p) == gap * p && gap * p >= 0 || size(gap * p) == -(gap * p) && gap * p <= 0,
    ;
    assert(sxnp <= sg * p + syp) by (nonlinear_arith)
        requires
            sxnp == sxn * p,
            syp == sy * p,
            sxn <= sg + sy,
            p > 0,
    ;
    let most = sy + 0x40_0000 * n;
    assert(most * p == syp + 0x40_0000 * np) by (nonlinear_arith)
        requires
            most == sy + 0x40_0000 * n,
            syp == sy * p,
            np == n * p,
    ;
    assert(syp >= 0 && np >= 0) by (nonlinear_arith)
        requires
            syp == sy * p,
            np == n * p,
            sy >= 0,
            n > 0,
            p > 0,
    ;
    assert((sg * 0x40_0000) * p == (sg * p) * 0x40_0000) by (nonlinear_arith);
    lemma_cancel(sg * 0x40_0000, most, p);
}

/// The root of a mean of squared distances, from the misses of its parts.
#[verifier::rlimit(60)]
#[verifier::spinoff_prover]
proof fn lemma_root_mean(r: int, v: int, u: int, t: int, n: int, p: int)
    requires
        p >= 0x100_0000,
        0 < n <= 0x10_0000,
        u >= 0,
        v >= 0,
        t >= 0,
        size(r * r - v * p) * 0x100_0000 <= 3 * (r * r),
        size(v * n - u) * 0x40_0000 <= u + 0x40_0000 * n,
        size(u * p - t) * 0x40_0000 <= (n + 4) * t + n * (0x80_0000 * p),
    ensures
        size((r * r) * n - t) * 0x40_0000 <= (n + 8) * t + n * (0x100_0000 * p),
{
    let rr = r * r;
    let vp = v * p;
    let up = u * p;
    let np = n * p;
    let nt = n * t;
    let vn = v * n;
    let vnp = vn * p;
    assert((n + 4) * t == nt + 4 * t && (n + 8) * t == nt + 8 * t && n * (0x80_0000 * p) == 0x80_0000
        * np && n * (0x100_0000 * p) == 0x100_0000 * np) by (nonlinear_arith)
        requires
            nt == n * t,
            np == n * p,
    ;
    assert(nt <= 0x10_0000 * t && np >= 0 && rr >= 0 && vp >= 0 && up >= 0 && vnp >= 0)
        by (nonlinear_arith)
        requires
            nt == n * t,
            0 < n <= 0x10_0000,
            t >= 0,
            np == n * p,
            p > 0,
            rr == r * r,
            vp == v * p,
            up == u * p,
            vnp == vn * p,
            vn == v * n,
            v >= 0,
            u >= 0,
    ;
    // The square against the mean.
    assert(size(rr - vp) * 0x40_0000 <= vp);
    let g = rr - vp;
    assert(size(g * n) * 0x40_0000 <= vnp) by {
        assert(-(vp * n) <= (g * 0x40_0000) * n && (g * 0x40_0000) * n <= vp * n) by (nonlinear_arith)
            requires
                -vp <= g * 0x40_0000 <= vp,
                n > 0,
        ;
        assert((g * 0x40_0000) * n == (g * n) * 0x40_0000) by (nonlinear_arith);
        assert(vp * n == vnp) by (nonlinear_arith)
            requires
                vp == v * p,
                vnp == vn * p,
                vn == v * n,
        ;
    }
    assert(g * n == rr * n - vnp) by (nonlinear_arith)
        requires
            g == rr - vp,
            vp == v * p,
            vnp == vn * p,
            vn == v * n,
    ;
    // The mean times the count against the sum.
    let h = vn - u;
    let most = u + 0x40_0000 * n;
    assert(size(h * p) * 0x40_0000 <= up + 0x40_0000 * np) by {
        assert(-(most * p) <= (h * 0x40_0000) * p && (h * 0x40_0000) * p <= most * p)
            by (nonlinear_arith)
            requires
                -most <= h * 0x40_0000 <= most,
                p > 0,
        ;
        assert((h * 0x40_0000) * p == (h * p) * 0x40_0000) by (nonlinear_arith);
        assert(most * p == up + 0x40_0000 * np) by (nonlinear_arith)
            requires
                most == u + 0x40_0000 * n,
                up == u * p,
                np == n * p,
        ;
    }
    assert(h * p == vnp - up) by (nonlinear_arith)
        requires
            h == vn - u,
            vnp == vn * p,
            up == u * p,
    ;
}

/// A root of a mean of squared distances: its square times the count is the spread,
/// up to rounding.
#[verifier::rlimit(60)]
#[verifier::spinoff_prover]
pub(crate) proof fn lemma_deviation(s: Seq<F32>, mean: F32, q: Seq<F32>)
    requires
        0 < s.len() <= 0x10_0000,
        q.len() == s.len(),
        forall|i: int|
            0 <= i < s.len() ==> #[trigger] q[i] == s[i].sub_spec(mean).mul_spec(
                s[i].sub_spec(mean),
            ),
        sum_of(q).div_spec(of_int(s.len() as int)).sqrt_spec().finite_spec(),
    ensures
        all_finite(s),
        mean.finite_spec(),
        exact_spread(s, mean) >= 0,
        ({
            let r = sum_of(q).div_spec(of_int(s.len() as int)).sqrt_spec();
            let n = s.len() as int;
            &&& r.units() >= 0
            &&& size((r.units() * r.units()) * n - exact_spread(s, mean)) * 0x40_0000 <= (n + 8)
                * exact_spread(s, mean) + n * (0x100_0000 * unit())
        }),
{
    reveal(F32::sqrt_spec);
    lemma_unit();
    let n = s.len() as int;
    let v = sum_of(q).div_spec(of_int(n));
    let r = v.sqrt_spec();
    assert(!v.nan_spec() && !v.inf_spec());
    assert(v.finite_spec());
    lemma_over_count(sum_of(q), n);
    lemma_spread_miss(s, mean, q);
    lemma_value(v);
    let u = sum_of(q).units();
    if v.units() > 0 {
        lemma_sqrt_miss(v);
    } else {
        assert(v.units() == 0) by {
            if v.units() < 0 {
                assert(!v.zero_spec());
                assert(v.neg_spec());
            }
        }
        assert(v.zero_spec());
        assert(r == v);
        assert(r.units() * r.units() == 0 && v.units() * unit() == 0) by (nonlinear_arith)
            requires
                r.units() == 0,
                v.units() == 0,
        ;
    }
    lemma_root_mean(r.units(), v.units(), u, exact_spread(s, mean), n, unit());
}

/// The sum of products without rounding, in units of 2^-298.
pub open spec fn exact_dot(a: Seq<F32>, a0: int, b: Seq<F32>, b0: int, step: int, n: nat) -> int
    decreases n,
{
    if n == 0 {
        0
    } else {
        exact_dot(a, a0, b, b0, step, (n - 1) as nat) + a[a0 + n - 1].units() * b[b0 + (n - 1)
            * step].units()
    }
}

/// The sum of the sizes of products without rounding.
pub open spec fn exact_dot_sizes(
    a: Seq<F32>,
    a0: int,
    b: Seq<F32>,
    b0: int,
    step: int,
    n: nat,
) -> int
    decreases n,
{
    if n == 0 {
        0
    } else {
        exact_dot_sizes(a, a0, b, b0, step, (n - 1) as nat) + size(
            a[a0 + n - 1].units() * b[b0 + (n - 1) * step].units(),
        )
    }
}

/// A rounded sum of products misses the exact one by little.
pub open spec fn near_dot(
    init: F32,
    a: Seq<F32>,
    a0: int,
    b: Seq<F32>,
    b0: int,
    step: int,
    n: nat,
    r: F32,
) -> bool {
    let p = unit();
    let most = size(init.units()) * p + exact_dot_sizes(a, a0, b, b0, step, n);
    size(r.units() * p - (init.units() * p + exact_dot(a, a0, b, b0, step, n))) * 0x40_0000 <= n
        * most + n * (0x40_0000 * p)
}

/// A dot product is the sum of the products, up to rounding.
#[verifier::rlimit(80)]
#[verifier::spinoff_prover]
pub proof fn dot_products_are_sums_of_products(
    init: F32,
    a: Seq<F32>,
    a0: int,
    b: Seq<F32>,
    b0: int,
    step: int,
    n: nat,
)
    requires
        n <= 0x10_0000,
        dot(init, a, a0, b, b0, step, n).finite_spec(),
    ensures
        init.finite_spec(),
        near_dot(init, a, a0, b, b0, step, n, dot(init, a, a0, b, b0, step, n)),
        size(exact_dot(a, a0, b, b0, step, n)) <= exact_dot_sizes(a, a0, b, b0, step, n),
    decreases n,
{
    lemma_unit();
    let p = unit();
    let r = dot(init, a, a0, b, b0, step, n);
    if n == 0 {
        let w = size(init.units()) * p;
        assert(0 * w == 0 && 0 * (0x40_0000 * p) == 0) by (nonlinear_arith);
    } else {
        let k = (n - 1) as nat;
        let before = dot(init, a, a0, b, b0, step, k);
        let (x, y) = (a[a0 + k], b[b0 + k * step]);
        let t = x.mul_spec(y);
        assert(r == before.add_spec(t));
        lemma_add_parts(before, t);
        lemma_mul_parts(x, y);
        dot_products_are_sums_of_products(init, a, a0, b, b0, step, k);
        lemma_mul_miss(x, y);
        lemma_add_miss(before, t);
        let i = size(init.units()) * p;
        assert(i >= 0) by (nonlinear_arith)
            requires
                i == size(init.units()) * p,
                size(init.units()) >= 0,
                p > 0,
        ;
        lemma_size_product(init.units(), p);
        lemma_dot_step(
            before.units(),
            t.units(),
            r.units(),
            x.units() * y.units(),
            init.units() * p + exact_dot(a, a0, b, b0, step, k),
            i + exact_dot_sizes(a, a0, b, b0, step, k),
            k as int,
            p,
        );
    }
}

/// One more product.
#[verifier::rlimit(80)]
#[verifier::spinoff_prover]
proof fn lemma_dot_step(b: int, t: int, r: int, xy: int, e: int, m: int, k: int, p: int)
    requires
        p >= 0x100_0000,
        0 <= k < 0x10_0000,
        size(e) <= m,
        size(b * p - e) * 0x40_0000 <= k * m + k * (0x40_0000 * p),
        size(t * p - xy) * 0x100_0000 <= size(xy) + 0x80_0000 * p,
        size(r - (b + t)) * 0x100_0000 <= size(b + t),
    ensures
        size(r * p - (e + xy)) * 0x40_0000 <= (k + 1) * (m + size(xy)) + (k + 1) * (0x40_0000 * p),
{
    let (bp, tp, rp) = (b * p, t * p, r * p);
    let sxy = size(xy);
    let km = k * m;
    let kp = k * p;
    assert(k * (0x40_0000 * p) == 0x40_0000 * kp && (k + 1) * (0x40_0000 * p) == 0x40_0000 * kp
        + 0x40_0000 * p && (k + 1) * (m + sxy) == km + m + (k + 1) * sxy) by (nonlinear_arith)
        requires
            km == k * m,
            kp == k * p,
    ;
    assert((k + 1) * sxy >= sxy && 0 <= km <= 0x10_0000 * m && 0 <= kp <= 0x10_0000 * p)
        by (nonlinear_arith)
        requires
            0 <= k <= 0x10_0000,
            sxy >= 0,
            km == k * m,
            kp == k * p,
            m >= 0,
            p > 0,
    ;
    let g = r - (b + t);
    lemma_size_product(g, p);
    lemma_size_product(b + t, p);
    assert((b + t) * p == bp + tp && g * p == rp - bp - tp) by (nonlinear_arith)
        requires
            bp == b * p,
            tp == t * p,
            rp == r * p,
            g == r - (b + t),
    ;
    let (sg, st) = (size(g), size(b + t));
    assert((sg * p) * 0x100_0000 <= st * p) by (nonlinear_arith)
        requires
            sg * 0x100_0000 <= st,
            p > 0,
    ;
}

} // verus!
