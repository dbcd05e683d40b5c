//! What the norms are for: rows come out with mean zero and deviation one, or with
//! root mean square one, times the weights; all up to rounding.
use crate::adam_laws::lemma_root_size;
use crate::attention::lemma_zero_quotient;
use crate::deviations::{lemma_mean, normalized_numbers_count_deviations};
use crate::float::{lemma_code, lemma_round_exact, of_int, F32, ONE_CODE};
use crate::float_errors::{
    lemma_add_miss, lemma_cancel, lemma_div_miss, lemma_mul_miss, lemma_of_int_miss,
    lemma_size_product, lemma_sqrt_miss, lemma_unit, lemma_value, positive, size, unit,
};
use crate::layer::{mean_of, norm_row, squares_of, std_of, LN_EPS_BITS};
use crate::llm::{inv_rms, rms_row};
use crate::normalizer::standard;
use crate::ops::sum_of;
use crate::quant::all_finite;
use crate::softmax_shares::exact_sum;
use crate::sum_errors::{
    exact_sizes, exact_spread, lemma_add_parts, lemma_mul_parts, lemma_over_count, lemma_spread_miss,
    lemma_sum_miss,
};
use vstd::arithmetic::power2::{lemma2_to64, lemma_pow2_adds, lemma_pow2_pos, pow2};
use vstd::prelude::*;

verus! {

/// A root `s` of a mean of squared distances and a small constant `e`, from the misses
/// of its parts; `t` is the exact sum of squared distances.
pub open spec fn is_root_mean(s: int, t: int, e: int, n: int) -> bool {
    let p = unit();
    let all = t + n * (e * p);
    s > 0 && size((s * s) * n - all) * 0x40_0000 <= (n + 16) * all + n * (0x100_0000 * p)
}

#[verifier::rlimit(80)]
#[verifier::spinoff_prover]
proof fn lemma_root_mean(s: int, w: int, v: int, u: int, t: int, e: int, n: int, p: int)
    requires
        p >= 0x100_0000,
        0 < n <= 0x10_0000,
        s > 0,
        u >= 0,
        v >= 0,
        t >= 0,
        e >= 0,
        w > 0,
        p == unit(),
        size(s * s - w * p) * 0x100_0000 <= 3 * (s * s),
        size(w - (v + e)) * 0x100_0000 <= size(v + e),
        size(v * n - u) * 0x40_0000 <= u + 0x40_0000 * n,
        size(u * p - t) * 0x40_0000 <= (n + 4) * t + n * (0x80_0000 * p),
    ensures
        is_root_mean(s, t, e, n),
{
    let ss = s * s;
    let wp = w * p;
    let (np, nt, ep) = (n * p, n * t, e * p);
    let nep = n * ep;
    let nnep = n * nep;
    let (vn, vp, up) = (v * n, v * p, u * p);
    let vnp = vn * p;
    let all = t + nep;
    assert((n + 4) * t == nt + 4 * t && (n + 16) * all == nt + 16 * t + nnep + 16 * nep && n
        * (0x80_0000 * p) == 0x80_0000 * np && n * (0x100_0000 * p) == 0x100_0000 * np)
        by (nonlinear_arith)
        requires
            nt == n * t,
            np == n * p,
            nnep == n * nep,
            all == t + nep,
    ;
    assert(0 <= nt <= 0x10_0000 * t && np >= 0 && ep >= 0 && nep >= 0 && nnep >= nep && wp >= 0 && vnp
        >= 0 && up >= 0 && ss >= 0) by (nonlinear_arith)
        requires
            nt == n * t,
            0 < n <= 0x10_0000,
            t >= 0,
            np == n * p,
            ep == e * p,
            nep == n * ep,
            nnep == n * nep,
            e >= 0,
            p > 0,
            wp == w * p,
            w > 0,
            vnp == vn * p,
            vn == v * n,
            v >= 0,
            up == u * p,
            u >= 0,
            ss == s * s,
    ;
    // The square against the mean and the constant.
    let g = ss - wp;
    assert(size(g) * 0x40_0000 <= wp);
    lemma_size_product(g, n);
    let sg = size(g);
    let wpn = wp * n;
    assert((sg * n) * 0x40_0000 <= wpn) by (nonlinear_arith)
        requires
            sg * 0x40_0000 <= wp,
            wpn == wp * n,
            n > 0,
    ;
    assert(g * n == ss * n - wpn) by (nonlinear_arith)
        requires
            g == ss - wp,
            wpn == wp * n,
    ;
    // The rounded sum of mean and constant.
    let h = w - (v + e);
    let sh = size(h);
    lemma_size_product(h, np);
    assert((sh * np) * 0x100_0000 <= (v + e) * np) by (nonlinear_arith)
        requires
            sh * 0x100_0000 <= v + e,
            np >= 0,
    ;
    assert((v + e) * np == vnp + nep && h * np == wpn - vnp - nep) by (nonlinear_arith)
        requires
            np == n * p,
            vnp == vn * p,
            vn == v * n,
            nep == n * ep,
            ep == e * p,
            h == w - (v + e),
            wpn == wp * n,
            wp == w * p,
    ;
    // The mean times the count against the sum.
    let k = vn - u;
    let most = u + 0x40_0000 * n;
    lemma_size_product(k, p);
    let sk = size(k);
    assert((sk * p) * 0x40_0000 <= up + 0x40_0000 * np) by (nonlinear_arith)
        requires
            sk * 0x40_0000 <= u + 0x40_0000 * n,
            up == u * p,
            np == n * p,
            p > 0,
    ;
    assert(k * p == vnp - up) by (nonlinear_arith)
        requires
            k == vn - u,
            vnp == vn * p,
            up == u * p,
    ;
}

/// A root of a mean of squared distances and a constant that is above zero.
#[verifier::rlimit(60)]
#[verifier::spinoff_prover]
proof fn lemma_root(x: Seq<F32>, mean: F32, q: Seq<F32>, eps: F32)
    requires
        0 < x.len() <= 0x10_0000,
        q.len() == x.len(),
        forall|i: int|
            0 <= i < x.len() ==> #[trigger] q[i] == x[i].sub_spec(mean).mul_spec(
                x[i].sub_spec(mean),
            ),
        sum_of(q).div_spec(of_int(x.len() as int)).add_spec(eps).finite_spec(),
        positive(eps),
    ensures
        all_finite(x),
        mean.finite_spec(),
        exact_spread(x, mean) >= 0,
        positive(sum_of(q).div_spec(of_int(x.len() as int)).add_spec(eps)),
        ({
            let s = sum_of(q).div_spec(of_int(x.len() as int)).add_spec(eps).sqrt_spec();
            &&& positive(s)
            &&& !s.neg_spec()
            &&& s.units() >= 0x80_0000
            &&& is_root_mean(s.units(), exact_spread(x, mean), eps.units(), x.len() as int)
        }),
{
    lemma_unit();
    let n = x.len() as int;
    let v = sum_of(q).div_spec(of_int(n));
    let w = v.add_spec(eps);
    lemma_add_parts(v, eps);
    lemma_over_count(sum_of(q), n);
    lemma_spread_miss(x, mean, q);
    lemma_add_miss(v, eps);
    lemma_value(v);
    lemma_value(sum_of(q));
    let u = sum_of(q).units();
    assert(v.units() >= 0) by {
        if v.units() < 0 {
            let vn = v.units() * n;
            assert(vn <= -n) by (nonlinear_arith)
                requires
                    vn == v.units() * n,
                    v.units() <= -1,
                    n > 0,
            ;
            lemma_quotient_sign(sum_of(q), n);
        }
    }
    lemma_value(w);
    lemma_sqrt_miss(w);
    let s = w.sqrt_spec();
    lemma_root_mean(
        s.units(),
        w.units(),
        v.units(),
        u,
        exact_spread(x, mean),
        eps.units(),
        n,
        unit(),
    );
}

/// A quotient of a number that is not negative by a count is not negative.
proof fn lemma_quotient_sign(a: F32, n: int)
    requires
        0 < n < 0x1_0000_0000_0000_0000,
        a.finite_spec(),
        a.units() >= 0,
        a.div_spec(of_int(n)).finite_spec(),
    ensures
        a.div_spec(of_int(n)).units() >= 0,
{
    lemma_unit();
    lemma_of_int_miss(n);
    lemma_value(a);
    lemma_value(of_int(n));
    lemma_div_miss(a, of_int(n));
    let v = a.div_spec(of_int(n));
    lemma_value(v);
    if a.zero_spec() {
        lemma_zero_quotient(a, of_int(n));
    }
}

/// One element of a layer norm: `y` is `gamma` times the distance to the mean over
/// `s`, and `beta`, up to rounding.
pub open spec fn is_standardized(x: F32, mean: F32, s: int, gamma: F32, beta: F32, y: F32) -> bool {
    let p = unit();
    let d = x.units() - mean.units();
    let (g, b) = (gamma.units(), beta.units());
    size(((y.units() - b) * s) * p - (d * g) * p) * 0x20_0000 <= size(d * g) * p + ((size(y.units())
        + size(b)) * s) * p + 0x20_0000 * (s * (p + 2 * size(g)))
}

#[verifier::rlimit(80)]
#[verifier::spinoff_prover]
proof fn lemma_element(y: int, t: int, b: int, z: int, g: int, d: int, s: int, p: int)
    requires
        p >= 0x100_0000,
        s > 0,
        size(z * s - d * p) * 0x40_0000 <= size(d) * p + 0x40_0000 * s,
        size(t * p - z * g) * 0x100_0000 <= size(z * g) + 0x80_0000 * p,
        size(y - (t + b)) * 0x100_0000 <= size(t + b),
    ensures
        size(((y - b) * s) * p - (d * g) * p) * 0x20_0000 <= size(d * g) * p + ((size(y) + size(b))
            * s) * p + 0x20_0000 * (s * (p + 2 * size(g))),
{
    let sg = size(g);
    let (dg, zg, sp) = (d * g, z * g, s * p);
    let dgp = dg * p;
    lemma_size_product(d, g);
    lemma_size_product(dg, p);
    lemma_size_product(z, g);
    // z s g against d p g.
    let e = z * s - d * p;
    lemma_size_product(e, g);
    let se = size(e);
    let (sd, sdgp, ssg) = (size(d), size(d) * sg * p, s * sg);
    assert((se * sg) * 0x40_0000 <= sdgp + 0x40_0000 * ssg) by (nonlinear_arith)
        requires
            se * 0x40_0000 <= sd * p + 0x40_0000 * s,
            sdgp == sd * sg * p,
            ssg == s * sg,
            sg >= 0,
    ;
    let zgs = zg * s;
    assert(e * g == zgs - dgp) by (nonlinear_arith)
        requires
            e == z * s - d * p,
            zgs == zg * s,
            zg == z * g,
            dgp == dg * p,
            dg == d * g,
    ;
    assert(size(dgp) == sdgp) by (nonlinear_arith)
        requires
            size(dgp) == size(dg) * p,
            size(dg) == sd * sg,
            sdgp == sd * sg * p,
    ;
    // t p s against z g s.
    let f = t * p - zg;
    lemma_size_product(f, s);
    lemma_size_product(zg, s);
    let (sf, szg) = (size(f), size(zg));
    assert((sf * s) * 0x100_0000 <= szg * s + 0x80_0000 * sp) by (nonlinear_arith)
        requires
            sf * 0x100_0000 <= szg + 0x80_0000 * p,
            sp == s * p,
            s > 0,
    ;
    let tsp = (t * s) * p;
    assert(f * s == tsp - zgs) by (nonlinear_arith)
        requires
            f == t * p - zg,
            tsp == (t * s) * p,
            zgs == zg * s,
    ;
    // (y - b) s p against t s p.
    let h = y - (t + b);
    let sy = size(y);
    assert(size(h) * 0x80_0000 <= sy);
    lemma_size_product(h, sp);
    let sh = size(h);
    let ysp = sy * sp;
    assert((sh * sp) * 0x80_0000 <= ysp && sp > 0 && ysp >= 0 && ssg >= 0 && sdgp >= 0)
        by (nonlinear_arith)
        requires
            sh * 0x80_0000 <= sy,
            ysp == sy * sp,
            sp == s * p,
            s > 0,
            p > 0,
            sy >= 0,
            ssg == s * sg,
            sg >= 0,
            sdgp == sd * sg * p,
            sd >= 0,
    ;
    let all = ((y - b) * s) * p;
    assert(h * sp == all - tsp) by (nonlinear_arith)
        requires
            h == y - (t + b),
            sp == s * p,
            all == ((y - b) * s) * p,
            tsp == (t * s) * p,
    ;
    let sb = size(b);
    assert(((sy + sb) * s) * p == ysp + sb * sp && sb * sp >= 0 && s * (p + 2 * sg) == sp + 2 * ssg)
        by (nonlinear_arith)
        requires
            ysp == sy * sp,
            sp == s * p,
            sb >= 0,
            sp > 0,
            ssg == s * sg,
    ;
}

/// The elements of a normalized row count deviations from the mean of the row, times
/// `gamma` and shifted by `beta`. The deviation squared is the mean squared distance to
/// the mean and a small constant, which is 1e-5.
pub proof fn layer_norms_standardize(x: Seq<F32>, gamma: Seq<F32>, beta: Seq<F32>) -> (s: int)
    requires
        0 < x.len() <= 0x10_0000,
        sum_of(squares_of(x, mean_of(x))).div_spec(of_int(x.len() as int)).add_spec(
            F32 { bits: LN_EPS_BITS },
        ).finite_spec(),
    ensures
        mean_of(x).finite_spec(),
        size(mean_of(x).units() * x.len() - exact_sum(x)) * 0x20_0000 <= (x.len() + 8) * exact_sizes(
            x,
        ) + 0x40_0000 * x.len(),
        is_root_mean(
            s,
            exact_spread(x, mean_of(x)),
            (F32 { bits: 0x3727_c5ac }).units(),
            x.len() as int,
        ),
        forall|i: int|
            0 <= i < x.len() && (#[trigger] norm_row(x, gamma, beta)[i]).finite_spec()
                ==> is_standardized(
                x[i],
                mean_of(x),
                s,
                gamma[i],
                beta[i],
                norm_row(x, gamma, beta)[i],
            ),
{
    lemma_unit();
    lemma2_to64();
    let eps = F32 { bits: LN_EPS_BITS };
    assert(positive(eps)) by {
        lemma_value(eps);
    }
    let mean = mean_of(x);
    let q = squares_of(x, mean);
    lemma_root(x, mean, q, eps);
    lemma_mean(x);
    let std = std_of(x);
    lemma_value(std);
    let y = norm_row(x, gamma, beta);
    assert forall|i: int| 0 <= i < x.len() && (#[trigger] y[i]).finite_spec() implies is_standardized(
        x[i],
        mean,
        std.units(),
        gamma[i],
        beta[i],
        y[i],
    ) by {
        let z = standard(x[i], mean, std);
        let t = z.mul_spec(gamma[i]);
        assert(y[i] == t.add_spec(beta[i]));
        lemma_add_parts(t, beta[i]);
        lemma_mul_parts(z, gamma[i]);
        normalized_numbers_count_deviations(x[i], mean, std);
        lemma_mul_miss(z, gamma[i]);
        lemma_add_miss(t, beta[i]);
        lemma_element(
            y[i].units(),
            t.units(),
            beta[i].units(),
            z.units(),
            gamma[i].units(),
            x[i].units() - mean.units(),
            std.units(),
            unit(),
        );
    }
    std.units()
}

/// One element of a root-mean-square norm: `z` is the element times the weight over
/// `s`, up to rounding.
pub open spec fn is_over_root(x: F32, s: int, w: F32, z: F32) -> bool {
    let p = unit();
    let xw = x.units() * w.units();
    size((z.units() * s) * p - xw * p) * 0x10_0000 <= size(xw) * p + 0x10_0000 * (s * (p + size(
        w.units(),
    )))
}

#[verifier::rlimit(80)]
#[verifier::spinoff_prover]
proof fn lemma_rms_element(z: int, a: int, x: int, r: int, w: int, s: int, p: int)
    requires
        p >= 0x100_0000,
        s > 0,
        s * 0x100_0000 <= p * p,
        size(r * s - p * p) * 0x100_0000 <= p * p + 0x80_0000 * s,
        size(a * p - x * r) * 0x100_0000 <= size(x * r) + 0x80_0000 * p,
        size(z * p - a * w) * 0x100_0000 <= size(a * w) + 0x80_0000 * p,
    ensures
        size((z * s) * p - (x * w) * p) * 0x10_0000 <= size(x * w) * p + 0x10_0000 * (s * (p + size(
            w,
        ))),
{
    let (pp, sw) = (p * p, size(w));
    let (xw, xr, aw, zp) = (x * w, x * r, a * w, z * p);
    // x w (r s) against x w p p.
    let e = r * s - pp;
    lemma_size_product(xw, e);
    let (sxw, se) = (size(xw), size(e));
    let xwpp = sxw * pp;
    assert(pp > 0) by (nonlinear_arith)
        requires
            pp == p * p,
            p > 0,
    ;
    assert(se * 0x80_0000 <= pp);
    assert((sxw * se) * 0x80_0000 <= xwpp && xwpp >= 0) by (nonlinear_arith)
        requires
            se * 0x80_0000 <= pp,
            xwpp == sxw * pp,
            sxw >= 0,
            pp > 0,
    ;
    let xrws = (xr * w) * s;
    assert(xw * e == xrws - xw * pp) by (nonlinear_arith)
        requires
            e == r * s - pp,
            xrws == (xr * w) * s,
            xr == x * r,
            xw == x * w,
    ;
    lemma_size_product(xw, pp);
    // a p w s against x r w s.
    let f = a * p - xr;
    let ws = w * s;
    lemma_size_product(w, s);
    lemma_size_product(f, ws);
    lemma_size_product(xr, ws);
    let (sf, sxr, sws) = (size(f), size(xr), size(ws));
    let psw = p * sws;
    assert((sf * sws) * 0x100_0000 <= sxr * sws + 0x80_0000 * psw && psw >= 0) by (nonlinear_arith)
        requires
            sf * 0x100_0000 <= sxr + 0x80_0000 * p,
            psw == p * sws,
            sws >= 0,
            p > 0,
    ;
    let awps = (aw * p) * s;
    assert(f * ws == awps - xrws && xr * ws == xrws) by (nonlinear_arith)
        requires
            f == a * p - xr,
            ws == w * s,
            awps == (aw * p) * s,
            aw == a * w,
            xrws == (xr * w) * s,
    ;
    // z p p s against a w p s.
    let g = zp - aw;
    let ps = p * s;
    lemma_size_product(g, ps);
    lemma_size_product(aw, ps);
    let (sg, saw) = (size(g), size(aw));
    let pps = p * ps;
    assert(ps > 0 && (sg * ps) * 0x100_0000 <= saw * ps + 0x80_0000 * pps && pps > 0)
        by (nonlinear_arith)
        requires
            sg * 0x100_0000 <= saw + 0x80_0000 * p,
            pps == p * ps,
            ps == p * s,
            p > 0,
            s > 0,
    ;
    let all = (z * s) * p;
    let allp = all * p;
    assert(g * ps == allp - awps && aw * ps == awps) by (nonlinear_arith)
        requires
            g == zp - aw,
            zp == z * p,
            ps == p * s,
            allp == all * p,
            all == (z * s) * p,
            awps == (aw * p) * s,
    ;
    // Leave out one p.
    let want = xw * p;
    assert(want * p == xw * pp) by (nonlinear_arith)
        requires
            want == xw * p,
            pp == p * p,
    ;
    let gap = all - want;
    assert(gap * p == allp - xw * pp) by (nonlinear_arith)
        requires
            gap == all - want,
            allp == all * p,
            want * p == xw * pp,
    ;
    lemma_size_product(gap, p);
    assert(sws == sw * s) by (nonlinear_arith)
        requires
            sws == size(w) * size(s),
            size(w) == sw,
            size(s) == s,
    ;
    let slack = s * (p + sw);
    assert(slack * p == pps + psw) by (nonlinear_arith)
        requires
            slack == s * (p + sw),
            pps == p * ps,
            ps == p * s,
            psw == p * sws,
            sws == sw * s,
    ;
    let most = sxw * p + 0x10_0000 * slack;
    assert(most * p == xwpp + 0x10_0000 * (pps + psw)) by (nonlinear_arith)
        requires
            most == sxw * p + 0x10_0000 * slack,
            slack * p == pps + psw,
            xwpp == sxw * pp,
            pp == p * p,
    ;
    let sgap = size(gap);
    assert((sgap * p) * 0x10_0000 <= xwpp + 0x10_0000 * (pps + psw));
    assert((sgap * 0x10_0000) * p == (sgap * p) * 0x10_0000) by (nonlinear_arith);
    lemma_cancel(sgap * 0x10_0000, most, p);
}

/// The elements of a normalized row are those of the row over its root mean square,
/// times the weights. The square of the root mean square is the mean of the squares and
/// the small constant of the norm.
pub proof fn rms_norms_divide_by_the_root_mean_square(x: Seq<F32>, weight: Seq<F32>, eps: F32) -> (s:
    int)
    requires
        0 < x.len() <= 0x10_0000,
        positive(eps),
        sum_of(x.map_values(|v: F32| v.mul_spec(v))).div_spec(of_int(x.len() as int)).add_spec(
            eps,
        ).finite_spec(),
        inv_rms(x, eps).finite_spec(),
    ensures
        is_root_mean(s, exact_spread(x, F32 { bits: 0 }), eps.units(), x.len() as int),
        forall|i: int|
            0 <= i < x.len() && (#[trigger] rms_row(x, weight, eps)[i]).finite_spec() ==> is_over_root(
                x[i],
                s,
                weight[i],
                rms_row(x, weight, eps)[i],
            ),
{
    lemma_unit();
    lemma2_to64();
    let zero = F32 { bits: 0 };
    let n = x.len() as int;
    let q = x.map_values(|v: F32| v.mul_spec(v));
    let v = sum_of(q).div_spec(of_int(n));
    lemma_add_parts(v, eps);
    lemma_over_count(sum_of(q), n);
    lemma_sum_miss(q);
    assert forall|i: int| 0 <= i < x.len() implies #[trigger] q[i] == x[i].sub_spec(zero).mul_spec(
        x[i].sub_spec(zero),
    ) by {
        assert(q[i].finite_spec());
        assert(q[i] == x[i].mul_spec(x[i]));
        lemma_mul_parts(x[i], x[i]);
        lemma_less_zero(x[i]);
    }
    lemma_root(x, zero, q, eps);
    let w = v.add_spec(eps);
    let root = w.sqrt_spec();
    lemma_value(root);
    lemma_value(w);
    lemma_root_size(w);
    let one = F32 { bits: ONE_CODE };
    let r = inv_rms(x, eps);
    assert(r == one.div_spec(root));
    lemma_div_miss(one, root);
    let s = root.units();
    let p = unit();
    lemma_pow2_adds(64, 85);
    lemma_pow2_adds(32, 53);
    lemma_pow2_adds(32, 21);
    lemma_pow2_pos(21);
    assert(s * 0x100_0000 <= p * p) by {
        let k = 0x4_0000_0000_0000_0000int;
        lemma_pow2_adds(64, 21);
        lemma_pow2_adds(128, 21);
        lemma_pow2_adds(64, 64);
        assert(p >= k * 0x100_0000) by (nonlinear_arith)
            requires
                p == pow2(128) * pow2(21),
                pow2(128) == 0x1_0000_0000_0000_0000 * 0x1_0000_0000_0000_0000,
                pow2(21) >= 1,
                k == 0x4_0000_0000_0000_0000,
        ;
        assert(s * 0x100_0000 <= p * p) by (nonlinear_arith)
            requires
                s <= k * p,
                p >= k * 0x100_0000,
                p > 0,
        ;
    }
    let y = rms_row(x, weight, eps);
    assert forall|i: int| 0 <= i < x.len() && (#[trigger] y[i]).finite_spec() implies is_over_root(
        x[i],
        s,
        weight[i],
        y[i],
    ) by {
        let a = x[i].mul_spec(r);
        assert(y[i] == a.mul_spec(weight[i]));
        lemma_mul_parts(a, weight[i]);
        lemma_mul_parts(x[i], r);
        lemma_mul_miss(x[i], r);
        lemma_mul_miss(a, weight[i]);
        lemma_rms_element(y[i].units(), a.units(), x[i].units(), r.units(), weight[i].units(), s, p);
    }
    s
}

/// A number less zero is the number.
proof fn lemma_less_zero(x: F32)
    requires
        x.finite_spec(),
    ensures
        x.sub_spec(F32 { bits: 0 }) == x,
{
    reveal(F32::add_spec);
    lemma_value(x);
    lemma_code(0, 0);
    lemma2_to64();
    lemma_round_exact(x.code_spec());
}

} // verus!
