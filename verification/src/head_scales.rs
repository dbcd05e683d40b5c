//! The factor on the scores of a head undoes the growth of dot products.
use crate::attention::head_scale_of;
use crate::float::{
    lemma_code, lemma_magnitude_increases, lemma_round_exact, lemma_round_root_unique,
    lemma_round_unique, magnitude, nearest, nearest_root, of_int, F32, INF_CODE, ONE_CODE,
};
use crate::float_errors::{
    lemma_cancel, lemma_div_miss, lemma_of_int_miss, lemma_sqrt_miss, lemma_unit, lemma_value,
    positive, size, unit,
};
use crate::rounding::lemma_round_at_most;
use vstd::arithmetic::power2::{lemma2_to64, lemma_pow2_adds, lemma_pow2_pos, pow2};
use vstd::prelude::*;

verus! {

/// The misses of a count, its root and the inverse of the root, put together.
#[verifier::rlimit(60)]
#[verifier::spinoff_prover]
proof fn lemma_together(h: int, x: int, r: int, s: int, p: int)
    requires
        p >= 0x100_0000,
        h >= 1,
        r >= 0x80_0000,
        x >= p,
        s >= 0,
        size(x - h * p) * 0x100_0000 <= h * p,
        size(r * r - x * p) * 0x100_0000 <= 3 * (r * r),
        size(s * r - p * p) * 0x100_0000 <= p * p + 0x80_0000 * r,
        0x80_0000 * r <= p * p,
    ensures
        size((s * s) * h - p * p) * 0x10_0000 <= p * p,
{
    let pp = p * p;
    let rr = r * r;
    let hpp = h * pp;
    // rr against h * pp.
    let xp = x * p;
    let hp = h * p;
    assert(hp * p == hpp) by (nonlinear_arith)
        requires
            hp == h * p,
            hpp == h * pp,
            pp == p * p,
    ;
    let d = x - hp;
    assert(size(d * p) * 0x100_0000 <= hpp) by {
        assert(-(hp * p) <= (d * 0x100_0000) * p && (d * 0x100_0000) * p <= hp * p)
            by (nonlinear_arith)
            requires
                -hp <= d * 0x100_0000 <= hp,
                p > 0,
        ;
        assert((d * 0x100_0000) * p == (d * p) * 0x100_0000) by (nonlinear_arith);
    }
    assert(d * p == xp - hpp) by (nonlinear_arith)
        requires
            d == x - hp,
            xp == x * p,
            hp * p == hpp,
    ;
    // 2^24 |rr - hpp| <= 3 rr + hpp, so 2^22 |rr - hpp| <= 1.1 hpp.
    assert(size(rr - hpp) * 0x100_0000 <= 3 * rr + hpp);
    assert(size(rr - hpp) * 0x2f_ffff <= hpp);
    assert(rr > 0) by (nonlinear_arith)
        requires
            rr == r * r,
            r >= 1,
    ;
    // (s r)^2 against pp^2.
    let e = s * r - pp;
    assert(size(e) * 0x80_0000 <= pp);
    let sr = s * r;
    let qq = pp * pp;
    let ee = e * e;
    let pe = pp * e;
    assert(sr * sr == qq + 2 * pe + ee) by (nonlinear_arith)
        requires
            sr == pp + e,
            qq == pp * pp,
            pe == pp * e,
            ee == e * e,
    ;
    assert(size(pe) * 0x80_0000 <= qq) by {
        assert(-qq <= pp * (e * 0x80_0000) && pp * (e * 0x80_0000) <= qq) by (nonlinear_arith)
            requires
                -pp <= e * 0x80_0000 <= pp,
                qq == pp * pp,
                pp >= 0,
        ;
        assert(pp * (e * 0x80_0000) == pe * 0x80_0000) by (nonlinear_arith)
            requires
                pe == pp * e,
        ;
    }
    assert(0 <= ee && ee * 0x80_0000 <= qq) by (nonlinear_arith)
        requires
            ee == e * e,
            -pp <= e * 0x80_0000 <= pp,
            qq == pp * pp,
    ;
    let sqr = sr * sr;
    assert(size(sqr - qq) * 0x2a_aaaa <= qq);
    // s s h against pp: both times rr.
    let ss = s * s;
    assert(sqr == ss * rr) by (nonlinear_arith)
        requires
            sqr == sr * sr,
            sr == s * r,
            ss == s * s,
            rr == r * r,
    ;
    // ss * hpp == ss * rr - ss * (rr - hpp), and size(rr - hpp) is small.
    let g = rr - hpp;
    let sg = ss * g;
    assert(ss * hpp == sqr - sg) by (nonlinear_arith)
        requires
            sg == ss * g,
            g == rr - hpp,
            sqr == ss * rr,
    ;
    assert(size(g) * 0x2f_fffe <= rr);
    assert(ss >= 0) by (nonlinear_arith)
        requires
            ss == s * s,
    ;
    assert(size(sg) * 0x2f_fffe <= sqr) by {
        assert(-(ss * rr) <= ss * (g * 0x2f_fffe) && ss * (g * 0x2f_fffe) <= ss * rr)
            by (nonlinear_arith)
            requires
                -rr <= g * 0x2f_fffe <= rr,
                ss >= 0,
        ;
        assert(ss * (g * 0x2f_fffe) == sg * 0x2f_fffe) by (nonlinear_arith)
            requires
                sg == ss * g,
        ;
    }
    let all = ss * hpp;
    assert(qq >= 0) by (nonlinear_arith)
        requires
            qq == pp * pp,
    ;
    assert(size(all - qq) * 0x10_0000 <= qq) by {
        assert(sqr <= qq + qq);
    }
    // Leave out one pp.
    let ssh = ss * h;
    assert(all == ssh * pp) by (nonlinear_arith)
        requires
            all == ss * hpp,
            hpp == h * pp,
            ssh == ss * h,
    ;
    let gap = ssh - pp;
    assert((gap * 0x10_0000) * pp == (all - qq) * 0x10_0000) by (nonlinear_arith)
        requires
            gap == ssh - pp,
            all == ssh * pp,
            qq == pp * pp,
    ;
    assert((-gap * 0x10_0000) * pp == -((gap * 0x10_0000) * pp)) by (nonlinear_arith);
    assert(pp > 0) by (nonlinear_arith)
        requires
            pp == p * p,
            p > 0,
    ;
    lemma_cancel(gap * 0x10_0000, pp, pp);
    lemma_cancel(-gap * 0x10_0000, pp, pp);
}

/// The square of the factor, times the size of the head, is one, up to one part
/// in a million: scores of heads of any size spread alike.
pub proof fn scores_spread_alike_in_heads_of_any_size(hd: int)
    requires
        0 < hd < 0x1_0000_0000_0000_0000,
    ensures
        ({
            let s = head_scale_of(hd);
            &&& positive(s)
            &&& size((s.units() * s.units()) * hd - unit() * unit()) * 0x10_0000 <= unit() * unit()
        }),
{
    lemma_unit();
    lemma_of_int_miss(hd);
    let x = of_int(hd);
    lemma_sqrt_miss(x);
    let r = x.sqrt_spec();
    let s = head_scale_of(hd);
    let one = F32 { bits: ONE_CODE };
    let p = unit();
    lemma_value(r);
    lemma_value(x);
    lemma_root_bounds(hd, x.units(), r.units(), p);
    lemma_quotient_finite(r);
    lemma_div_miss(one, r);
    lemma_value(s);
    lemma_together(hd, x.units(), r.units(), s.units(), p);
    if s.units() <= 0 {
        assert(s.units() == 0);
        assert((s.units() * s.units()) * hd == 0) by (nonlinear_arith)
            requires
                s.units() == 0,
        ;
        assert(p * p > 0) by (nonlinear_arith)
            requires
                p > 0,
        ;
    }
}

/// Roots of counts lie between one and 2^33.
proof fn lemma_root_bounds(h: int, x: int, r: int, p: int)
    requires
        p >= 0x100_0000,
        p == unit(),
        1 <= h < 0x1_0000_0000_0000_0000,
        x >= p,
        r >= 0x80_0000,
        size(x - h * p) * 0x100_0000 <= h * p,
        size(r * r - x * p) * 0x100_0000 <= 3 * (r * r),
    ensures
        0x80_0000 * r <= p * p,
        2 * r >= p,
{
    lemma2_to64();
    lemma_pow2_adds(64, 85);
    lemma_pow2_pos(85);
    let rr = r * r;
    let pp = p * p;
    assert(p >= 0x1000_0000_0000_0000) by (nonlinear_arith)
        requires
            p == pow2(64) * pow2(85),
            pow2(64) == 0x1_0000_0000_0000_0000,
            pow2(85) >= 1,
    ;
    let xp = x * p;
    assert(xp >= pp && x <= 2 * (h * p)) by (nonlinear_arith)
        requires
            x >= p,
            p > 0,
            xp == x * p,
            pp == p * p,
            size(x - h * p) * 0x100_0000 <= h * p,
            h >= 1,
    ;
    assert(4 * rr >= 2 * pp);
    if 2 * r < p {
        assert(4 * rr < pp) by (nonlinear_arith)
            requires
                rr == r * r,
                pp == p * p,
                0 <= 2 * r < p,
        ;
    }
    let big = 0x4_0000_0000int;
    assert(h * p <= 0x1_0000_0000_0000_0000 * p) by (nonlinear_arith)
        requires
            h <= 0x1_0000_0000_0000_0000,
            p > 0,
    ;
    assert(xp <= 0x2_0000_0000_0000_0000 * pp) by (nonlinear_arith)
        requires
            xp == x * p,
            x <= 0x2_0000_0000_0000_0000 * p,
            pp == p * p,
            p > 0,
    ;
    if r > big * p {
        assert(rr >= (big * big) * pp) by (nonlinear_arith)
            requires
                rr == r * r,
                pp == p * p,
                r > big * p,
                big > 0,
                p > 0,
        ;
        assert(big * big == 0x10_0000_0000_0000_0000);
    }
    assert(0x80_0000 * (big * p) <= pp) by (nonlinear_arith)
        requires
            pp == p * p,
            p >= 0x80_0000 * big,
            big > 0,
    ;
}

/// The inverse of a number of at least one half is finite.
pub(crate) proof fn lemma_quotient_finite(r: F32)
    requires
        positive(r),
        !r.neg_spec(),
        2 * r.units() >= unit(),
    ensures
        (F32 { bits: ONE_CODE }).div_spec(r).finite_spec(),
{
    reveal(F32::div_spec);
    lemma2_to64();
    lemma_unit();
    lemma_value(r);
    let one = F32 { bits: ONE_CODE };
    let p = unit();
    let top = 128 * 0x80_0000int;
    lemma_code(0x80_0000, 127);
    lemma_pow2_adds(23, 127);
    lemma_pow2_adds(1, 149);
    assert(magnitude(top) == 2 * p);
    let num = one.mag() * p;
    assert(0 <= num <= magnitude(top) * r.mag()) by (nonlinear_arith)
        requires
            num == one.mag() * p,
            one.mag() == p,
            magnitude(top) == 2 * p,
            2 * r.mag() >= p,
            p > 0,
    ;
    lemma_round_at_most(num, r.mag(), top);
}

/// The code of a power of two from one half of 2^-126 up.
proof fn lemma_power_code(k: int) -> (c: int)
    requires
        -100 <= k <= 100,
    ensures
        0x80_0000 <= c < INF_CODE,
        c == ONE_CODE + k * 0x80_0000,
        magnitude(c) == pow2((149 + k) as nat),
        c % 2 == 0,
{
    lemma2_to64();
    lemma_code(0x80_0000, 126 + k);
    lemma_pow2_adds(23, (126 + k) as nat);
    (126 + k) * 0x80_0000 + 0x80_0000
}

/// In heads whose size is a power of four, the factor is exactly the inverse of the
/// root: one, a half, a fourth and so on.
pub proof fn powers_of_four_have_exact_factors(k: int)
    requires
        0 <= k <= 31,
    ensures
        ({
            let s = head_scale_of(pow2((2 * k) as nat) as int);
            s.finite_spec() && s.units() * pow2(k as nat) == unit()
        }),
{
    reveal(of_int);
    reveal(F32::sqrt_spec);
    reveal(F32::div_spec);
    lemma2_to64();
    lemma_unit();
    let p = unit();
    let hd = pow2((2 * k) as nat) as int;
    let c2 = lemma_power_code(2 * k);
    let c1 = lemma_power_code(k);
    let c0 = lemma_power_code(-k);
    let one = F32 { bits: ONE_CODE };
    // The count is exact.
    lemma_pow2_adds((2 * k) as nat, 149);
    lemma_round_exact(c2);
    lemma_pow2_pos((2 * k) as nat);
    let x = of_int(hd);
    assert(hd * pow2(149) == magnitude(c2));
    assert(x.code_spec() == c2 && !x.neg_spec());
    // So is its root.
    let n = x.mag() * p;
    lemma_pow2_adds((149 + 2 * k) as nat, 149);
    lemma_pow2_adds((149 + k) as nat, (149 + k) as nat);
    let m = magnitude(c1);
    assert(n == m * m);
    lemma_magnitude_increases(c1 - 1, c1);
    lemma_magnitude_increases(c1, c1 + 1);
    let lo = magnitude(c1 - 1) + m;
    let hi = m + magnitude(c1 + 1);
    assert(lo * lo < 4 * (m * m) && 4 * (m * m) < hi * hi) by (nonlinear_arith)
        requires
            0 <= lo < 2 * m,
            hi > 2 * m,
    ;
    assert(nearest_root(n, c1));
    lemma_round_root_unique(n, c1);
    let r = x.sqrt_spec();
    assert(r.code_spec() == c1 && !r.neg_spec());
    // And the inverse.
    let num = one.mag() * p;
    lemma_pow2_adds(149, 149);
    lemma_pow2_adds((149 + k) as nat, (149 - k) as nat);
    let w = magnitude(c0);
    assert(num == w * m) by (nonlinear_arith)
        requires
            num == p * p,
            p * p == pow2(298),
            m * w == pow2(298),
    ;
    lemma_magnitude_increases(c0 - 1, c0);
    lemma_magnitude_increases(c0, c0 + 1);
    let (lo, hi) = (magnitude(c0 - 1) + w, w + magnitude(c0 + 1));
    assert(lo * m < 2 * num && 2 * num < hi * m) by (nonlinear_arith)
        requires
            lo < 2 * w,
            hi > 2 * w,
            num == w * m,
            m > 0,
    ;
    assert(nearest(num, m, c0));
    lemma_round_unique(num, m, c0);
    let s = head_scale_of(hd);
    assert(s.code_spec() == c0 && !s.neg_spec());
    lemma_pow2_adds((149 - k) as nat, k as nat);
}

} // verus!
