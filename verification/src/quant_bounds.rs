//! Quantized numbers stay near the numbers that they stand for.
use crate::float::{
    lemma_code, lemma_magnitude_increases, lemma_round_exists, magnitude, of_int, round, F32,
    INF_CODE,
};
use crate::index::{cell, lemma_cell};
use crate::int8_grid::{
    bounded_whole, is_limit, lemma_bounded, lemma_limit, lemma_zero_product,
};
use crate::ops::row_of;
use crate::quant::{
    abs_max, all_finite, int8_scale_of, inverse_scale, lemma_abs_max, level_limit, row_scale, snap,
    snapped, QKind, QWeight, INT8_MAX_BITS,
};
use crate::rounding::{lemma_miss, lemma_round_at_most, lemma_round_ordered};
use vstd::arithmetic::power2::{lemma2_to64, lemma_pow2_adds, lemma_pow2_pos, pow2};
use vstd::prelude::*;

verus! {

/// A number lies within half a scale of another, give or take the 8192nd part of
/// the scale and 64 times the least magnitude.
pub open spec fn is_near(v: F32, origin: F32, scale: F32) -> bool {
    let gap = v.units() - origin.units();
    let most = 0x80_0800 * scale.units() + 0x4000_0000;
    v.finite_spec() && -most <= gap * 0x100_0000 <= most
}

/// Magnitudes are not negative, and those of finite numbers are below 2^277 units.
proof fn lemma_magnitude(x: F32)
    requires
        x.finite_spec(),
    ensures
        0 <= x.mag() < pow2(277),
        x.zero_spec() <==> x.mag() == 0,
{
    lemma2_to64();
    lemma_code(0, 0);
    lemma_code(0x80_0000, 254);
    lemma_pow2_adds(23, 254);
    lemma_magnitude_increases(x.code_spec(), INF_CODE as int);
    if x.code_spec() > 0 {
        lemma_magnitude_increases(0, x.code_spec());
    }
}

/// No element is larger than the largest magnitude.
proof fn lemma_largest(s: Seq<F32>, i: int)
    requires
        all_finite(s),
        0 <= i < s.len(),
    ensures
        s[i].mag() <= abs_max(s).mag(),
    decreases s.len(),
{
    let d = s.drop_last();
    assert(all_finite(d)) by {
        assert forall|j: int| 0 <= j < d.len() implies (#[trigger] d[j]).finite_spec() by {
            assert(d[j] == s[j]);
        }
    }
    lemma_abs_max(d);
    let before = abs_max(d);
    let last = s.last().abs_spec();
    assert(s.last().finite_spec());
    if before.code_spec() < last.code_spec() {
        lemma_magnitude_increases(before.code_spec(), last.code_spec());
    } else if last.code_spec() < before.code_spec() {
        lemma_magnitude_increases(last.code_spec(), before.code_spec());
    }
    if i < d.len() {
        lemma_largest(d, i);
        assert(d[i] == s[i]);
    }
}

/// A bound of a product is a bound of its factor.
proof fn lemma_cancel(a: int, b: int, p: int)
    requires
        p > 0,
        a * p <= b * p,
    ensures
        a <= b,
{
    assert(a <= b) by (nonlinear_arith)
        requires
            p > 0,
            a * p <= b * p,
    ;
}

/// A scale times the limit misses the largest magnitude by little.
#[verifier::rlimit(60)]
#[verifier::spinoff_prover]
proof fn lemma_scale(largest: F32, lim: F32, limit: int)
    requires
        largest.finite_spec(),
        !largest.neg_spec(),
        is_limit(lim, limit),
    ensures
        ({
            let scale = largest.div_spec(lim);
            let gap = limit * scale.mag() - largest.mag();
            let most = largest.mag() + 0x80_0000 * limit;
            scale.finite_spec() && !scale.neg_spec() && -most <= gap * 0x100_0000 <= most
        }),
{
    reveal(F32::div_spec);
    lemma_limit(lim, limit);
    lemma_magnitude(largest);
    lemma_pow2_pos(149);
    let p = pow2(149) as int;
    let m = largest.mag();
    let num = m * p;
    let den = limit * p;
    assert(num >= 0 && den > 0 && num <= m * den) by (nonlinear_arith)
        requires
            num == m * p,
            den == limit * p,
            m >= 0,
            p > 0,
            limit >= 1,
    ;
    lemma_round_at_most(num, den, largest.code_spec());
    lemma_round_exists(num, den);
    let c = round(num, den);
    lemma_miss(num, den, c);
    let s = magnitude(c);
    let gap = limit * s - m;
    let most = m + 0x80_0000 * limit;
    assert(s * den - num == gap * p) by (nonlinear_arith)
        requires
            gap == limit * s - m,
            den == limit * p,
            num == m * p,
    ;
    assert(num + 0x80_0000 * den == most * p) by (nonlinear_arith)
        requires
            most == m + 0x80_0000 * limit,
            den == limit * p,
            num == m * p,
    ;
    assert((gap * 0x100_0000) * p == (gap * p) * 0x100_0000) by (nonlinear_arith);
    assert((-gap * 0x100_0000) * p == -(gap * p) * 0x100_0000) by (nonlinear_arith);
    lemma_cancel(gap * 0x100_0000, most, p);
    lemma_cancel(-gap * 0x100_0000, most, p);
}

/// The largest magnitude is at most 192 scales.
proof fn lemma_largest_in_scales(m: int, s: int, limit: int)
    requires
        m >= 0,
        s >= 1,
        0 < limit <= 127,
        (m - limit * s) * 0x100_0000 <= m + 0x80_0000 * limit,
    ensures
        m <= 192 * s,
{
    assert(limit * s <= 127 * s) by (nonlinear_arith)
        requires
            limit <= 127,
            s >= 1,
    ;
}

/// Two values that each lie near a third lie near one another.
proof fn lemma_two_misses(x: int, y: int, z: int, unit: int)
    requires
        2 * x <= 2 * y + unit,
        2 * y <= 2 * x + unit,
        -1000 * unit <= (y - z) * 0x100_0000 <= 1000 * unit,
    ensures
        -8389608 * unit <= (x - z) * 0x100_0000 <= 8389608 * unit,
{
}

/// A number whose quotient is rounded to more than the limit is at least the
/// limit times the scale.
proof fn lemma_beyond(ns: int, ls: int, a: int, s: int)
    requires
        ns >= ls + s,
        s >= 1,
        (ns - a) * 0x100_0000 <= 8389608 * s,
    ensures
        a >= ls,
{
}

/// A magnitude as a whole number, rounded half away from zero.
spec fn whole_of(x: F32) -> int {
    (2 * x.mag() + pow2(149)) / pow2(150) as int
}

/// The whole number that a quotient is rounded to, times the scale, is near the
/// number.
#[verifier::rlimit(60)]
#[verifier::spinoff_prover]
proof fn lemma_whole(v: F32, x: F32, scale: F32)
    requires
        x.finite_spec(),
        scale.mag() >= 1,
        -1000 * (scale.mag() * pow2(149)) <= (x.mag() * scale.mag() - v.mag() * pow2(149))
            * 0x100_0000 <= 1000 * (scale.mag() * pow2(149)),
    ensures
        whole_of(x) >= 0,
        -8389608 * scale.mag() <= (whole_of(x) * scale.mag() - v.mag()) * 0x100_0000 <= 8389608
            * scale.mag(),
{
    lemma2_to64();
    lemma_pow2_pos(149);
    lemma_pow2_adds(1, 149);
    lemma_magnitude(x);
    let p = pow2(149) as int;
    let s = scale.mag();
    let a = v.mag();
    let d = x.mag();
    let n = (2 * d + p) / (2 * p);
    assert(n * (2 * p) <= 2 * d + p && 2 * d + p < (n + 1) * (2 * p) && n >= 0) by (nonlinear_arith)
        requires
            n == (2 * d + p) / (2 * p),
            p > 0,
            d >= 0,
    ;
    assert(n == whole_of(x));
    let ds = d * s;
    let ap = a * p;
    let ps = s * p;
    let nps = n * ps;
    assert(2 * nps <= 2 * ds + ps && 2 * ds + ps <= 2 * nps + 2 * ps) by (nonlinear_arith)
        requires
            n * (2 * p) <= 2 * d + p,
            2 * d + p <= (n + 1) * (2 * p),
            s >= 1,
            ds == d * s,
            ps == s * p,
            nps == n * ps,
    ;
    let gap = n * s - a;
    assert(gap * p == nps - ap) by (nonlinear_arith)
        requires
            gap == n * s - a,
            nps == n * ps,
            ps == s * p,
            ap == a * p,
    ;
    let most = 8389608 * s;
    assert(most * p == 8389608 * ps) by (nonlinear_arith)
        requires
            most == 8389608 * s,
            ps == s * p,
    ;
    lemma_two_misses(nps, ds, ap, ps);
    assert((gap * 0x100_0000) * p == (gap * p) * 0x100_0000) by (nonlinear_arith);
    assert((-gap * 0x100_0000) * p == -(gap * p) * 0x100_0000) by (nonlinear_arith);
    lemma_cancel(gap * 0x100_0000, most, p);
    lemma_cancel(-gap * 0x100_0000, most, p);
}

/// A level times the scale is rounded by little.
#[verifier::rlimit(60)]
#[verifier::spinoff_prover]
proof fn lemma_multiple(level: F32, scale: F32, q: int)
    requires
        level.finite_spec(),
        scale.finite_spec(),
        !scale.neg_spec(),
        scale.mag() >= 1,
        0 <= q <= 127,
        level.mag() == q * pow2(149),
    ensures
        ({
            let r = level.mul_spec(scale);
            let most = q * scale.mag() + 0x80_0000;
            &&& !r.nan_spec()
            &&& r.neg_spec() == level.neg_spec()
            &&& r.code_spec() == round((q * scale.mag()) * pow2(149), pow2(149) as int)
            &&& r.finite_spec() ==> -most <= (r.mag() - q * scale.mag()) * 0x100_0000 <= most
        }),
{
    reveal(F32::mul_spec);
    lemma_pow2_pos(149);
    let p = pow2(149) as int;
    let s = scale.mag();
    let num = level.mag() * s;
    assert(num == (q * s) * p && num >= 0) by (nonlinear_arith)
        requires
            num == level.mag() * s,
            level.mag() == q * p,
            0 <= q,
            s >= 1,
            p > 0,
    ;
    lemma_round_exists(num, p);
    let c = round(num, p);
    if c < INF_CODE {
        lemma_miss(num, p, c);
        let r = magnitude(c);
        let gap = r - q * s;
        let most = q * s + 0x80_0000;
        assert(r * p - num == gap * p) by (nonlinear_arith)
            requires
                gap == r - q * s,
                num == (q * s) * p,
        ;
        assert(num + 0x80_0000 * p == most * p) by (nonlinear_arith)
            requires
                most == q * s + 0x80_0000,
                num == (q * s) * p,
        ;
        assert((gap * 0x100_0000) * p == (gap * p) * 0x100_0000) by (nonlinear_arith);
        assert((-gap * 0x100_0000) * p == -(gap * p) * 0x100_0000) by (nonlinear_arith);
        lemma_cancel(gap * 0x100_0000, most, p);
        lemma_cancel(-gap * 0x100_0000, most, p);
    }
}

/// The number of a level is near the number that the level was taken from.
#[verifier::rlimit(60)]
#[verifier::spinoff_prover]
proof fn lemma_level(v: F32, x: F32, level: F32, scale: F32, largest: F32, limit: int)
    requires
        v.finite_spec(),
        x.finite_spec(),
        x.neg_spec() == v.neg_spec(),
        scale.finite_spec(),
        !scale.neg_spec(),
        scale.mag() >= 1,
        v.mag() <= largest.mag() <= 192 * scale.mag(),
        0 < limit <= 127,
        (largest.mag() - limit * scale.mag()) * 0x100_0000 <= largest.mag() + 0x80_0000 * limit,
        -1000 * (scale.mag() * pow2(149)) <= (x.mag() * scale.mag() - v.mag() * pow2(149))
            * 0x100_0000 <= 1000 * (scale.mag() * pow2(149)),
        level.finite_spec(),
        level.mag() == bounded_whole(x, limit) * pow2(149),
        level.mag() == 0 || level.neg_spec() == x.neg_spec(),
        level.mul_spec(scale).finite_spec(),
    ensures
        is_near(level.mul_spec(scale), v, scale),
{
    lemma_pow2_pos(149);
    lemma_whole(v, x, scale);
    let p = pow2(149) as int;
    let s = scale.mag();
    let a = v.mag();
    let n = whole_of(x);
    let q = bounded_whole(x, limit);
    assert(q == if n > limit {
        limit
    } else {
        n
    });
    lemma_multiple(level, scale, q);
    lemma_magnitude(v);
    lemma_magnitude(level.mul_spec(scale));
    assert(0 <= q * s <= 127 * s) by (nonlinear_arith)
        requires
            0 <= q <= 127,
            s >= 1,
    ;
    if n > limit {
        let ls = limit * s;
        assert(n * s >= ls + s) by (nonlinear_arith)
            requires
                n >= limit + 1,
                s >= 1,
                ls == limit * s,
        ;
        lemma_beyond(n * s, ls, a, s);
    }
    if level.mag() == 0 {
        assert(q * s == 0) by (nonlinear_arith)
            requires
                q * p == 0,
                p > 0,
        ;
    }
}

/// The quotient of a number and a scale, times the scale, is near the number.
#[verifier::rlimit(60)]
#[verifier::spinoff_prover]
proof fn lemma_quotient(v: F32, scale: F32)
    requires
        v.finite_spec(),
        scale.finite_spec(),
        !scale.neg_spec(),
        scale.mag() >= 1,
        v.mag() <= 192 * scale.mag(),
    ensures
        ({
            let x = v.div_spec(scale);
            let most = 1000 * (scale.mag() * pow2(149));
            &&& x.finite_spec()
            &&& x.neg_spec() == v.neg_spec()
            &&& -most <= (x.mag() * scale.mag() - v.mag() * pow2(149)) * 0x100_0000 <= most
        }),
{
    reveal(F32::div_spec);
    lemma_magnitude(v);
    lemma_magnitude(scale);
    lemma_unit();
    let p = pow2(149) as int;
    let s = scale.mag();
    let num = v.mag() * p;
    let top = 135 * 0x80_0000int;
    lemma_code(0x80_0000, 134);
    lemma_pow2_adds(23, 134);
    lemma_pow2_adds(8, 149);
    lemma2_to64();
    assert(magnitude(top) == 256 * p);
    assert(0 <= num && num <= 192 * (s * p) && num <= magnitude(top) * s && 0x80_0000 * s <= s * p) by (nonlinear_arith)
        requires
            num == v.mag() * p,
            magnitude(top) == 256 * p,
            0 <= v.mag() <= 192 * s,
            s >= 1,
            p >= 0x80_0000,
    ;
    lemma_round_at_most(num, s, top);
    lemma_round_exists(num, s);
    let c = round(num, s);
    lemma_miss(num, s, c);
}

/// One is more than 2^23 units.
proof fn lemma_unit()
    ensures
        pow2(149) >= 0x80_0000,
{
    lemma2_to64();
    lemma_pow2_adds(23, 126);
    lemma_pow2_pos(126);
    assert(0x80_0000 * pow2(126) >= 0x80_0000) by (nonlinear_arith)
        requires
            pow2(126) >= 1,
    ;
}

/// A number that is put on the int8 grid moves by at most half a scale, up to
/// rounding; the grid may reach beyond the largest finite number.
pub proof fn snapped_numbers_stay_near(s: Seq<F32>, i: int)
    requires
        all_finite(s),
        0 <= i < s.len(),
        snapped(s)[i].finite_spec(),
    ensures
        is_near(snapped(s)[i], s[i], int8_scale_of(s)),
{
    let scale = int8_scale_of(s);
    let largest = abs_max(s);
    let lim = F32 { bits: INT8_MAX_BITS };
    lemma_abs_max(s);
    lemma_scale(largest, lim, 127);
    lemma_magnitude(scale);
    assert(s[i].finite_spec());
    if (F32 { bits: 0 }).lt_spec(scale) {
        lemma_largest(s, i);
        lemma_largest_in_scales(largest.mag(), scale.mag(), 127);
        lemma_quotient(s[i], scale);
        let x = s[i].div_spec(scale);
        lemma_bounded(x, lim, 127);
        let level = x.round_spec().clamp_spec(lim.negated(), lim);
        lemma_level(s[i], x, level, scale, largest, 127);
        assert(snapped(s)[i] == snap(s[i], scale));
    }
}

/// A rounded product with a rounded inverse misses the quotient by little.
#[verifier::rlimit(60)]
#[verifier::spinoff_prover]
proof fn lemma_inverse_misses(a: int, s: int, i: int, d: int, p: int)
    requires
        p >= 0x80_0000,
        s >= 1,
        i >= 0,
        0 <= a <= 192 * s,
        s <= p * p,
        0x80_0000 * a <= 4 * (p * p),
        -(p * p + 0x80_0000 * s) <= (i * s - p * p) * 0x100_0000 <= p * p + 0x80_0000 * s,
        -(a * i + 0x80_0000 * p) <= (d * p - a * i) * 0x100_0000 <= a * i + 0x80_0000 * p,
    ensures
        -1000 * (s * p) <= (d * s - a * p) * 0x100_0000 <= 1000 * (s * p),
{
    let pp = p * p;
    let is = i * s;
    let ai = a * i;
    let dp = d * p;
    let ais = a * is;
    let dps = dp * s;
    let app = a * pp;
    let spp = s * pp;
    let gap = d * s - a * p;
    assert(is <= 2 * pp);
    assert(ais <= 2 * app) by (nonlinear_arith)
        requires
            is <= 2 * pp,
            a >= 0,
            ais == a * is,
            app == a * pp,
    ;
    assert(app <= 192 * spp) by (nonlinear_arith)
        requires
            a <= 192 * s,
            pp >= 0,
            app == a * pp,
            spp == s * pp,
    ;
    let first = (i * s - pp) * 0x100_0000;
    let one = pp + 0x80_0000 * s;
    assert(-(a * one) <= a * first <= a * one) by (nonlinear_arith)
        requires
            a >= 0,
            -one <= first <= one,
    ;
    assert(a * first == (ais - app) * 0x100_0000) by (nonlinear_arith)
        requires
            first == (is - pp) * 0x100_0000,
            ais == a * is,
            app == a * pp,
    ;
    let sa = (0x80_0000 * a) * s;
    assert(a * one == app + sa && 0 <= sa <= 4 * spp) by (nonlinear_arith)
        requires
            one == pp + 0x80_0000 * s,
            app == a * pp,
            sa == (0x80_0000 * a) * s,
            0 <= 0x80_0000 * a <= 4 * pp,
            s >= 1,
            spp == s * pp,
    ;
    let second = (dp - ai) * 0x100_0000;
    let two = ai + 0x80_0000 * p;
    assert(-(two * s) <= second * s <= two * s) by (nonlinear_arith)
        requires
            s >= 1,
            -two <= second <= two,
    ;
    assert(ai * s == ais) by (nonlinear_arith)
        requires
            ai == a * i,
            is == i * s,
            ais == a * is,
    ;
    assert(second * s == (dps - ais) * 0x100_0000) by (nonlinear_arith)
        requires
            second == (dp - ai) * 0x100_0000,
            dps == dp * s,
            ai * s == ais,
    ;
    let sp = (0x80_0000 * p) * s;
    assert(two * s == ais + sp && 0 <= sp <= spp) by (nonlinear_arith)
        requires
            two == ai + 0x80_0000 * p,
            ai * s == ais,
            sp == (0x80_0000 * p) * s,
            spp == s * pp,
            pp == p * p,
            p >= 0x80_0000,
            s >= 1,
    ;
    let whole = dps - app;
    assert(-1000 * spp <= whole * 0x100_0000 <= 1000 * spp) by {
        lemma_add_misses(dps, ais, app, spp, sa, sp);
    }
    assert(gap * p == whole) by (nonlinear_arith)
        requires
            gap == d * s - a * p,
            whole == dps - app,
            dps == dp * s,
            dp == d * p,
            app == a * pp,
            pp == p * p,
    ;
    let most = 1000 * (s * p);
    assert(most * p == 1000 * spp) by (nonlinear_arith)
        requires
            most == 1000 * (s * p),
            spp == s * pp,
            pp == p * p,
    ;
    assert((gap * 0x100_0000) * p == (gap * p) * 0x100_0000) by (nonlinear_arith);
    assert((-gap * 0x100_0000) * p == -(gap * p) * 0x100_0000) by (nonlinear_arith);
    lemma_cancel(gap * 0x100_0000, most, p);
    lemma_cancel(-gap * 0x100_0000, most, p);
}

/// The misses of an inverse and of a product add up.
proof fn lemma_add_misses(dps: int, ais: int, app: int, spp: int, sa: int, sp: int)
    requires
        0 <= sa <= 4 * spp,
        0 <= sp <= spp,
        app <= 192 * spp,
        ais <= 2 * app,
        -(app + sa) <= (ais - app) * 0x100_0000 <= app + sa,
        -(ais + sp) <= (dps - ais) * 0x100_0000 <= ais + sp,
    ensures
        -1000 * spp <= (dps - app) * 0x100_0000 <= 1000 * spp,
{
}

/// The product of a number and the inverse of a scale, times the scale, is near
/// the number.
#[verifier::rlimit(60)]
#[verifier::spinoff_prover]
proof fn lemma_product(v: F32, scale: F32)
    requires
        v.finite_spec(),
        scale.finite_spec(),
        !scale.neg_spec(),
        scale.mag() >= 1,
        v.mag() <= 192 * scale.mag(),
        inverse_scale(scale).finite_spec(),
    ensures
        ({
            let x = v.mul_spec(inverse_scale(scale));
            let most = 1000 * (scale.mag() * pow2(149));
            &&& x.finite_spec()
            &&& x.neg_spec() == v.neg_spec()
            &&& -most <= (x.mag() * scale.mag() - v.mag() * pow2(149)) * 0x100_0000 <= most
        }),
{
    reveal(F32::div_spec);
    reveal(F32::mul_spec);
    lemma_magnitude(v);
    lemma_magnitude(scale);
    lemma_unit();
    lemma2_to64();
    let inv = inverse_scale(scale);
    let p = pow2(149) as int;
    let s = scale.mag();
    let a = v.mag();
    let one = F32 { bits: 0x3f80_0000 };
    lemma_code(0x80_0000, 126);
    lemma_pow2_adds(23, 126);
    assert(one.mag() == p);
    assert((F32 { bits: 0 }).lt_spec(scale));
    assert(p * p >= 0) by (nonlinear_arith);
    lemma_round_exists(p * p, s);
    let ic = round(p * p, s);
    assert(inv == one.div_spec(scale));
    assert(inv.code_spec() == ic);
    lemma_miss(p * p, s, ic);
    let i = inv.mag();
    lemma_magnitude(inv);
    lemma_pow2_adds(149, 149);
    lemma_pow2_adds(277, 21);
    lemma_pow2_adds(277, 23);
    lemma_pow2_adds(298, 2);
    assert(p * p == pow2(298));
    assert(pow2(277) * 0x80_0000 == 4 * (p * p));
    assert(s <= p * p) by (nonlinear_arith)
        requires
            s < pow2(277),
            p * p == pow2(277) * 0x20_0000,
    ;
    let num = a * i;
    assert(i * s <= 2 * (p * p));
    let top = 136 * 0x80_0000int;
    lemma_code(0x80_0000, 135);
    lemma_pow2_adds(23, 135);
    lemma_pow2_adds(9, 149);
    assert(magnitude(top) == 512 * p);
    assert(num >= 0) by (nonlinear_arith)
        requires
            num == a * i,
            a >= 0,
            i >= 0,
    ;
    assert(num <= 192 * (i * s) && magnitude(top) * p == 512 * (p * p)) by (nonlinear_arith)
        requires
            num == a * i,
            a <= 192 * s,
            i >= 0,
            magnitude(top) == 512 * p,
    ;
    lemma_round_at_most(num, p, top);
    lemma_round_exists(num, p);
    let c = round(num, p);
    lemma_miss(num, p, c);
    lemma_inverse_misses(a, s, i, magnitude(c), p);
}

/// The value of a quantized matrix lies within half the scale of its row of the
/// number that was quantized, up to rounding. The inverse of the scale is not
/// finite for rows whose numbers are all smaller than about 2^-121, and the largest
/// level may stand for more than the largest finite number.
pub proof fn quantized_numbers_stay_near(
    w: QWeight,
    data: Seq<F32>,
    rows: int,
    cols: int,
    kind: QKind,
    r: int,
    c: int,
)
    requires
        w.quantizes(data, rows, cols, kind),
        data.len() == rows * cols,
        0 <= r < rows,
        0 <= c < cols,
        all_finite(row_of(data, r, cols)),
        inverse_scale(w.scales@[r]).finite_spec(),
        w.value(r, c).finite_spec(),
    ensures
        is_near(w.value(r, c), data[cell(r, c, cols)], w.scales@[r]),
{
    lemma_cell(r, c, rows, cols);
    let row = row_of(data, r, cols);
    assert(row[c] == data[cell(r, c, cols)]);
    let v = row[c];
    let scale = row_scale(row, kind);
    assert(w.scales@[r] == scale);
    let lim = level_limit(kind);
    let limit = match kind {
        QKind::Int8 => 127int,
        QKind::Int4 => 7int,
    };
    let largest = abs_max(row);
    let inv = inverse_scale(scale);
    let x = v.mul_spec(inv);
    lemma_abs_max(row);
    lemma_scale(largest, lim, limit);
    lemma_magnitude(scale);
    lemma_magnitude(v);
    lemma_magnitude(largest);
    lemma_largest(row, c);
    if scale.zero_spec() {
        assert(inv == F32 { bits: 0 });
        lemma_no_scale(v, scale);
        lemma_bounded(x, lim, limit);
        let level = of_int(w.level(r, c));
        assert(bounded_whole(x, limit) == 0);
        lemma_zero_product(level, scale);
        lemma_magnitude(w.value(r, c));
    } else {
        lemma_largest_in_scales(largest.mag(), scale.mag(), limit);
        lemma_product(v, scale);
        lemma_bounded(x, lim, limit);
        let z = x.round_spec().clamp_spec(lim.negated(), lim);
        let level = of_int(w.level(r, c));
        lemma_code(0, 0);
        lemma2_to64();
        assert(level.mag() == z.mag());
        lemma_level(v, x, level, scale, largest, limit);
    }
}

/// Without a scale every level is zero.
proof fn lemma_no_scale(v: F32, scale: F32)
    requires
        v.finite_spec(),
        scale.zero_spec(),
    ensures
        v.mul_spec(F32 { bits: 0 }).zero_spec(),
        bounded_whole(v.mul_spec(F32 { bits: 0 }), 7) == 0,
        bounded_whole(v.mul_spec(F32 { bits: 0 }), 127) == 0,
        of_int(0).zero_spec(),
{
    reveal(F32::mul_spec);
    reveal(of_int);
    lemma2_to64();
    lemma_code(0, 0);
    lemma_pow2_pos(149);
    lemma_pow2_adds(1, 149);
    let p = pow2(149) as int;
    assert(v.mag() * 0 == 0);
    assert(0 * p == 0) by (nonlinear_arith);
    lemma_round_at_most(0, p, 0);
    lemma_round_at_most(0, 1, 0);
    assert(p / (2 * p) == 0) by (nonlinear_arith)
        requires
            p > 0,
    ;
}

/// Some element has the largest magnitude.
proof fn lemma_attained(s: Seq<F32>) -> (k: int)
    requires
        all_finite(s),
        s.len() > 0,
    ensures
        0 <= k < s.len(),
        s[k].mag() == abs_max(s).mag(),
    decreases s.len(),
{
    let d = s.drop_last();
    assert(all_finite(d)) by {
        assert forall|j: int| 0 <= j < d.len() implies (#[trigger] d[j]).finite_spec() by {
            assert(d[j] == s[j]);
        }
    }
    assert(s.last().finite_spec());
    if d.len() == 0 || abs_max(s) == s.last().abs_spec() {
        if d.len() == 0 {
            assert(abs_max(d) == F32 { bits: 0 });
        }
        s.len() - 1
    } else {
        let k = lemma_attained(d);
        assert(d[k] == s[k]);
        k
    }
}

/// What becomes of one number on the int8 grid.
proof fn lemma_snap(v: F32, scale: F32)
    requires
        v.finite_spec(),
        scale.finite_spec(),
        !scale.neg_spec(),
        scale.mag() >= 1,
        v.mag() <= 192 * scale.mag(),
    ensures
        ({
            let x = v.div_spec(scale);
            let n = whole_of(x);
            let q = bounded_whole(x, 127);
            let r = snap(v, scale);
            let s = scale.mag();
            let most = q * s + 0x80_0000;
            &&& n >= 0
            &&& q == if n > 127 {
                127
            } else {
                n
            }
            &&& -8389608 * s <= (n * s - v.mag()) * 0x100_0000 <= 8389608 * s
            &&& r.neg_spec() == v.neg_spec()
            &&& r.code_spec() == round((q * s) * pow2(149), pow2(149) as int)
            &&& r.finite_spec() ==> -most <= (r.mag() - q * s) * 0x100_0000 <= most
        }),
{
    let lim = F32 { bits: INT8_MAX_BITS };
    lemma_quotient(v, scale);
    let x = v.div_spec(scale);
    lemma_bounded(x, lim, 127);
    let level = x.round_spec().clamp_spec(lim.negated(), lim);
    lemma_whole(v, x, scale);
    lemma_multiple(level, scale, bounded_whole(x, 127));
}

/// The scale of numbers on a grid is nearly the scale of the grid.
#[verifier::rlimit(60)]
#[verifier::spinoff_prover]
proof fn lemma_scale_again(s: Seq<F32>)
    requires
        all_finite(s),
        all_finite(snapped(s)),
        int8_scale_of(s).code_spec() >= 0x80_0000,
        s.len() > 0,
    ensures
        ({
            let before = int8_scale_of(s);
            let after = int8_scale_of(snapped(s));
            &&& before.finite_spec()
            &&& !before.neg_spec()
            &&& before.mag() >= 0x80_0000
            &&& after.finite_spec()
            &&& !after.neg_spec()
            &&& abs_max(snapped(s)).mag() <= 128 * before.mag()
            &&& -4 * before.mag() <= (after.mag() - before.mag()) * 0x100_0000 <= 4 * before.mag()
        }),
{
    let lim = F32 { bits: INT8_MAX_BITS };
    let t = snapped(s);
    let before = int8_scale_of(s);
    let after = int8_scale_of(t);
    let largest = abs_max(s);
    lemma2_to64();
    lemma_abs_max(s);
    lemma_abs_max(t);
    lemma_scale(largest, lim, 127);
    lemma_scale(abs_max(t), lim, 127);
    lemma_code(0x80_0000, 0);
    if before.code_spec() > 0x80_0000 {
        lemma_magnitude_increases(0x80_0000, before.code_spec());
    }
    let b = before.mag();
    assert(b >= 0x80_0000);
    lemma_magnitude(largest);
    lemma_magnitude(abs_max(t));
    lemma_largest_in_scales(largest.mag(), b, 127);
    let k = lemma_attained(s);
    assert(t[k] == snap(s[k], before));
    assert(s[k].finite_spec() && t[k].finite_spec());
    lemma_snap(s[k], before);
    let n = whole_of(s[k].div_spec(before));
    assert(n >= 127) by (nonlinear_arith)
        requires
            (largest.mag() - n * b) * 0x100_0000 <= 8389608 * b,
            (127 * b - largest.mag()) * 0x100_0000 <= largest.mag() + 0x80_0000 * 127,
            largest.mag() <= 192 * b,
            b >= 0x80_0000,
    ;
    lemma_largest(t, k);
    let j = lemma_attained(t);
    assert(s[j].finite_spec() && t[j].finite_spec());
    assert(t[j] == snap(s[j], before));
    lemma_largest(s, j);
    lemma_snap(s[j], before);
    let q = bounded_whole(s[j].div_spec(before), 127);
    let p = pow2(149) as int;
    lemma_pow2_pos(149);
    assert(0 <= (q * b) * p <= (127 * b) * p) by (nonlinear_arith)
        requires
            0 <= q <= 127,
            b > 0,
            p > 0,
    ;
    lemma_round_ordered((q * b) * p, (127 * b) * p, p);
    if t[j].code_spec() < t[k].code_spec() {
        lemma_magnitude_increases(t[j].code_spec(), t[k].code_spec());
    }
    assert(abs_max(t).mag() == t[k].mag());
}

/// A whole number that is within half a unit, and a bit, of another is the same.
proof fn lemma_same_whole(n: int, q: int, s: int, v: int)
    requires
        s >= 1,
        -8389608 * s <= (n * s - v) * 0x100_0000 <= 8389608 * s,
        -700 * s <= (v - q * s) * 0x100_0000 <= 700 * s,
    ensures
        n == q,
{
    let gap = n - q;
    assert(gap * s == n * s - q * s) by (nonlinear_arith)
        requires
            gap == n - q,
    ;
    let g = gap * s;
    assert(-s < g < s);
    assert(gap == 0) by (nonlinear_arith)
        requires
            g == gap * s,
            -s < g < s,
            s >= 1,
    ;
}

/// Numbers on an int8 grid are near whole multiples of their own scale, and
/// putting them on the grid once more moves each by at most the 16384th part of
/// the scale. The scale is a normal number: below, few of its digits are left, and
/// a second scale may differ by more.
pub proof fn snapping_again_changes_little(s: Seq<F32>, i: int) -> (level: int)
    requires
        all_finite(s),
        all_finite(snapped(s)),
        int8_scale_of(s).code_spec() >= 0x80_0000,
        0 <= i < s.len(),
        snapped(snapped(s))[i].finite_spec(),
    ensures
        -127 <= level <= 127,
        ({
            let scale = int8_scale_of(snapped(s)).units();
            -700 * scale <= (snapped(s)[i].units() - level * scale) * 0x100_0000 <= 700 * scale
        }),
        ({
            let scale = int8_scale_of(s).units();
            -scale <= (snapped(snapped(s))[i].units() - snapped(s)[i].units()) * 0x4000 <= scale
        }),
{
    let t = snapped(s);
    let u = snapped(t);
    let before = int8_scale_of(s);
    let after = int8_scale_of(t);
    let b = before.mag();
    let a = after.mag();
    lemma_scale_again(s);
    lemma_magnitude(after);
    assert(s[i].finite_spec() && t[i].finite_spec());
    assert(t[i] == snap(s[i], before));
    lemma_abs_max(s);
    lemma_scale(abs_max(s), F32 { bits: INT8_MAX_BITS }, 127);
    lemma_magnitude(abs_max(s));
    lemma_largest_in_scales(abs_max(s).mag(), b, 127);
    lemma_largest(s, i);
    lemma_snap(s[i], before);
    let q = bounded_whole(s[i].div_spec(before), 127);
    assert(a >= 1);
    assert((F32 { bits: 0 }).lt_spec(after));
    assert(u[i] == snap(t[i], after));
    lemma_largest(t, i);
    lemma_snap(t[i], after);
    let n = whole_of(t[i].div_spec(after));
    let step = a - b;
    let qs = q * step;
    assert(q * a == q * b + qs && -508 * b <= qs * 0x100_0000 <= 508 * b && 0 <= q * b <= 127 * b)
        by (nonlinear_arith)
        requires
            step == a - b,
            qs == q * step,
            0 <= q <= 127,
            -4 * b <= step * 0x100_0000 <= 4 * b,
            b >= 0x80_0000,
    ;
    lemma_same_whole(n, q, a, t[i].mag());
    let level = if s[i].neg_spec() {
        -q
    } else {
        q
    };
    assert(-q * a == -(q * a)) by (nonlinear_arith);
    level
}

} // verus!
