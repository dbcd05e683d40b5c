//! What a step of Adam does: the moments take up the gradient, the parameter moves by
//! the first moment over the root of the second, and decay pulls beside it.
use crate::attention::lemma_zero_quotient;
use crate::float::{lemma_code, lemma_magnitude_increases, magnitude, F32, INF_CODE, ONE_CODE};
use crate::float_errors::{
    lemma_add_miss, lemma_bounded_product, lemma_div_miss, lemma_mul_miss, lemma_size_product,
    lemma_sqrt_miss, lemma_sub_miss, lemma_unit, lemma_value, positive, size, unit,
};
use crate::int8_grid::same_number;
use crate::llm_train::{optimized_via, LlamaTrainer};
use crate::math::{is_powi, Math};
use crate::optim::{exponent_of, Adam};
use crate::rope_start::{lemma_plus_zero, lemma_times_zero};
use crate::rounding::lemma_round_at_most;
use crate::sum_errors::{lemma_add_parts, lemma_div_parts, lemma_mul_parts, lemma_sub_parts};
use crate::train_params::model_parts;
use crate::train_steps::{part_is_matrix, settings_for};
use vstd::arithmetic::power2::{lemma2_to64, lemma_pow2_adds, pow2};
use vstd::prelude::*;

verus! {

// ---------------------------------------------------------------------------
// Decay
// ---------------------------------------------------------------------------

/// The decay of one parameter, in units of 2^-447.
pub open spec fn exact_decay(a: Adam, p: F32) -> int {
    (a.lr.units() * a.weight_decay.units()) * p.units()
}

/// Two parameters that were moved alike but for the decay differ by it, up to
/// rounding.
pub open spec fn differs_by_decay(a: Adam, p: F32, with: F32, without: F32) -> bool {
    let one = unit() * unit();
    let k = exact_decay(a, p);
    let most = (size(p.units()) + size(without.units()) + 0x20_0000) * one + size(k);
    size((with.units() - without.units()) * one + k) * 0x10_0000 <= 4 * most
}

/// What two products, one after the other, come to.
#[verifier::rlimit(60)]
#[verifier::spinoff_prover]
pub(crate) proof fn lemma_two_products(l: int, w: int, x: int, k: int, q: int, p: int)
    requires
        p >= 0x100_0000,
        size(k * p - l * w) * 0x100_0000 <= size(l * w) + 0x80_0000 * p,
        size(q * p - k * x) * 0x100_0000 <= size(k * x) + 0x80_0000 * p,
    ensures
        size(q * (p * p) - (l * w) * x) * 0x40_0000 <= size((l * w) * x) + 0x40_0000 * (size(x) * p)
            + 0x40_0000 * (p * p),
{
    let lw = l * w;
    let lwx = lw * x;
    let e = k * p - lw;
    let f = q * p - k * x;
    lemma_size_product(lw, x);
    let sx = size(x);
    lemma_bounded_product(e * 0x100_0000, x, size(lw) + 0x80_0000 * p, sx);
    let ex = e * x;
    assert((e * 0x100_0000) * x == ex * 0x100_0000) by (nonlinear_arith)
        requires
            ex == e * x,
    ;
    let slwx = size(lw) * sx;
    let xp = sx * p;
    let pp = p * p;
    assert((size(lw) + 0x80_0000 * p) * sx == slwx + 0x80_0000 * xp) by (nonlinear_arith)
        requires
            slwx == size(lw) * sx,
            xp == sx * p,
    ;
    let kxp = (k * x) * p;
    assert(kxp == lwx + ex) by (nonlinear_arith)
        requires
            kxp == (k * x) * p,
            e == k * p - lw,
            ex == e * x,
            lwx == lw * x,
    ;
    let kx = k * x;
    lemma_bounded_product(f * 0x100_0000, p, size(kx) + 0x80_0000 * p, p);
    let fp = f * p;
    assert((f * 0x100_0000) * p == fp * 0x100_0000) by (nonlinear_arith)
        requires
            fp == f * p,
    ;
    lemma_size_product(kx, p);
    assert((size(kx) + 0x80_0000 * p) * p == size(kxp) + 0x80_0000 * pp) by (nonlinear_arith)
        requires
            size(kxp) == size(kx) * p,
            pp == p * p,
    ;
    assert(q * pp == kxp + fp) by (nonlinear_arith)
        requires
            fp == f * p,
            f == q * p - kx,
            kxp == kx * p,
            pp == p * p,
    ;
    assert(xp >= 0 && pp >= 0) by (nonlinear_arith)
        requires
            xp == sx * p,
            sx >= 0,
            p > 0,
            pp == p * p,
    ;
}

/// A step with decay against one without, from the misses.
#[verifier::rlimit(60)]
#[verifier::spinoff_prover]
proof fn lemma_steps(x: int, u: int, q: int, r: int, with: int, without: int, k: int, p: int)
    requires
        p >= 0x100_0000,
        size(q * (p * p) - k) * 0x40_0000 <= size(k) + 0x40_0000 * (size(x) * p) + 0x40_0000 * (p
            * p),
        size(r - (u + q)) * 0x100_0000 <= size(u + q),
        size(with - (x - r)) * 0x100_0000 <= size(x - r),
        size(without - (x - u)) * 0x100_0000 <= size(x - u),
    ensures
        size((with - without) * (p * p) + k) * 0x10_0000 <= 4 * ((size(x) + size(without) + 0x20_0000) * (p
            * p) + size(k)),
{
    let pp = p * p;
    let (sx, sw, sk) = (size(x), size(without), size(k));
    assert(size(u) <= 2 * sx + 2 * sw);
    let (xpp, wpp) = (sx * pp, sw * pp);
    assert((sx + sw + 0x20_0000) * pp == xpp + wpp + 0x20_0000 * pp) by (nonlinear_arith)
        requires
            xpp == sx * pp,
            wpp == sw * pp,
    ;
    assert(0x100_0000 * (sx * p) <= xpp && pp >= 0 && xpp >= 0 && wpp >= 0) by (nonlinear_arith)
        requires
            xpp == sx * pp,
            wpp == sw * pp,
            pp == p * p,
            p >= 0x100_0000,
            sx >= 0,
            sw >= 0,
    ;
    // with - without + q, up to the misses of three roundings.
    let g = with - without + q;
    assert(size(g) * 0x100_0000 <= size(x - r) + size(u + q) + size(x - u));
    let sq = size(q);
    assert(size(g) * 0x100_0000 <= 8 * sx + 8 * sw + 4 * sq);
    let qpp = q * pp;
    lemma_size_product(q, pp);
    let sqpp = sq * pp;
    assert(sqpp <= 2 * sk + xpp + 2 * pp);
    let gpp = g * pp;
    lemma_size_product(g, pp);
    let sg = size(g);
    assert((sg * 0x100_0000) * pp <= (8 * sx + 8 * sw + 4 * sq) * pp) by (nonlinear_arith)
        requires
            sg * 0x100_0000 <= 8 * sx + 8 * sw + 4 * sq,
            pp >= 0,
    ;
    assert((sg * 0x100_0000) * pp == (sg * pp) * 0x100_0000) by (nonlinear_arith);
    assert((8 * sx + 8 * sw + 4 * sq) * pp == 8 * xpp + 8 * wpp + 4 * sqpp) by (nonlinear_arith)
        requires
            xpp == sx * pp,
            wpp == sw * pp,
            sqpp == sq * pp,
    ;
    assert((with - without) * pp + k == gpp - (qpp - k)) by (nonlinear_arith)
        requires
            gpp == g * pp,
            qpp == q * pp,
            g == with - without + q,
    ;
}

/// A step with decay differs from the step without, for the same parameter and
/// moments, by the rate times the decay times the parameter, up to rounding. Where
/// the parameter is zero, decay changes nothing.
pub proof fn decay_pulls_beside_the_gradient(a: Adam, p: F32, m: F32, v: F32, bc1: F32, bc2: F32)
    requires
        a.moved(p, m, v, bc1, bc2).finite_spec(),
        (Adam { weight_decay: F32 { bits: 0 }, ..a }).moved(p, m, v, bc1, bc2).finite_spec(),
    ensures
        ({
            let without = (Adam { weight_decay: F32 { bits: 0 }, ..a }).moved(p, m, v, bc1, bc2);
            &&& differs_by_decay(a, p, a.moved(p, m, v, bc1, bc2), without)
            &&& p.zero_spec() ==> same_number(a.moved(p, m, v, bc1, bc2), without)
        }),
{
    let zero = F32 { bits: 0 };
    let b = Adam { weight_decay: zero, ..a };
    let with = a.moved(p, m, v, bc1, bc2);
    let without = b.moved(p, m, v, bc1, bc2);
    let plain = a.lr.mul_spec(m.div_spec(bc1)).div_spec(
        v.div_spec(bc2).sqrt_spec().add_spec(a.eps),
    );
    assert(without == p.sub_spec(plain));
    lemma_sub_parts(p, plain);
    lemma_sub_miss(p, plain);
    lemma_unit();
    let one = unit();
    let (x, u) = (p.units(), plain.units());
    if a.weight_decay.zero_spec() {
        lemma_value(a.weight_decay);
        assert(with == without);
        let l = a.lr.units();
        let w = a.weight_decay.units();
        assert((l * w) * x == 0) by (nonlinear_arith)
            requires
                w == 0,
        ;
        assert(0 * (one * one) == 0) by (nonlinear_arith);
        let (sx, sw) = (size(x), size(without.units()));
        assert((sx + sw + 0x20_0000) * (one * one) >= 0) by (nonlinear_arith)
            requires
                sx >= 0,
                sw >= 0,
        ;
        assert((with.units() - without.units()) * (one * one) == 0) by (nonlinear_arith)
            requires
                with.units() == without.units(),
        ;
    } else {
        let rate = a.lr.mul_spec(a.weight_decay);
        let q = rate.mul_spec(p);
        let r = plain.add_spec(q);
        assert(with == p.sub_spec(r));
        lemma_sub_parts(p, r);
        lemma_add_parts(plain, q);
        lemma_mul_parts(rate, p);
        lemma_mul_parts(a.lr, a.weight_decay);
        lemma_mul_miss(a.lr, a.weight_decay);
        lemma_mul_miss(rate, p);
        lemma_add_miss(plain, q);
        lemma_sub_miss(p, r);
        lemma_two_products(a.lr.units(), a.weight_decay.units(), x, rate.units(), q.units(), one);
        lemma_steps(
            x,
            u,
            q.units(),
            r.units(),
            with.units(),
            without.units(),
            exact_decay(a, p),
            one,
        );
        if p.zero_spec() {
            lemma_times_zero(rate, p);
            lemma_plus_zero(plain, q);
            lemma_same_difference(p, r, plain);
        }
    }
}

/// Differences of the same numbers are the same.
proof fn lemma_same_difference(p: F32, a: F32, b: F32)
    requires
        p.finite_spec(),
        a.finite_spec(),
        b.finite_spec(),
        same_number(a, b),
    ensures
        same_number(p.sub_spec(a), p.sub_spec(b)),
{
    reveal(F32::add_spec);
    lemma_value(a);
    lemma_value(b);
    lemma_value(p);
}

// ---------------------------------------------------------------------------
// The move
// ---------------------------------------------------------------------------

/// An integer `s` is the root of the corrected second moment, and `u` the first
/// moment, corrected, times the rate and over `s + eps`, up to rounding.
pub open spec fn is_update(a: Adam, m: F32, v: F32, bc1: F32, bc2: F32, s: int, u: int) -> bool {
    let p = unit();
    let exact = (a.lr.units() * m.units()) * p;
    let d = s + a.eps.units();
    &&& s >= 0
    &&& size((s * s) * bc2.units() - v.units() * (p * p)) * 0x10_0000 <= v.units() * (p * p)
        + 0x20_0000 * (bc2.units() * p)
    &&& size((u * d) * bc1.units() - exact) * 0x10_0000 <= size(exact) + 0x20_0000 * (bc1.units() * (d
        + p + size(a.lr.units())))
}

/// The root of the corrected second moment.
#[verifier::rlimit(60)]
#[verifier::spinoff_prover]
proof fn lemma_root(v: int, b: int, w: int, s: int, p: int)
    requires
        p >= 0x100_0000,
        v >= 0,
        b > 0,
        w >= 0,
        s >= 0,
        size(w * b - v * p) * 0x100_0000 <= v * p + 0x80_0000 * b,
        size(s * s - w * p) * 0x100_0000 <= 3 * (s * s),
    ensures
        size((s * s) * b - v * (p * p)) * 0x10_0000 <= v * (p * p) + 0x20_0000 * (b * p),
{
    let ss = s * s;
    let wp = w * p;
    let wb = w * b;
    let vp = v * p;
    let bp = b * p;
    let vpp = v * (p * p);
    let g = ss - wp;
    let h = wb - vp;
    assert(wp >= 0 && ss >= 0) by (nonlinear_arith)
        requires
            wp == w * p,
            w >= 0,
            p > 0,
            ss == s * s,
    ;
    assert(size(g) * 0x40_0000 <= wp);
    lemma_size_product(g, b);
    lemma_size_product(h, p);
    let wpb = wb * p;
    let sg = size(g);
    assert((sg * b) * 0x40_0000 <= wpb) by (nonlinear_arith)
        requires
            sg * 0x40_0000 <= wp,
            wpb == wb * p,
            wb == w * b,
            wp == w * p,
            b > 0,
    ;
    let sh = size(h);
    assert((sh * p) * 0x100_0000 <= vpp + 0x80_0000 * bp) by (nonlinear_arith)
        requires
            sh * 0x100_0000 <= vp + 0x80_0000 * b,
            vpp == v * (p * p),
            vp == v * p,
            bp == b * p,
            p > 0,
    ;
    assert(g * b == ss * b - wpb) by (nonlinear_arith)
        requires
            g == ss - wp,
            wp == w * p,
            wpb == wb * p,
            wb == w * b,
    ;
    assert(h * p == wpb - vpp) by (nonlinear_arith)
        requires
            h == wb - vp,
            wpb == wb * p,
            vp == v * p,
            vpp == v * (p * p),
    ;
    assert(vpp >= 0 && bp >= 0) by (nonlinear_arith)
        requires
            vpp == v * (p * p),
            v >= 0,
            bp == b * p,
            b > 0,
            p > 0,
    ;
}

/// The first moment over the root.
#[verifier::rlimit(80)]
#[verifier::spinoff_prover]
proof fn lemma_update(l: int, m: int, b: int, e: int, d: int, h: int, t: int, u: int, p: int)
    requires
        p >= 0x100_0000,
        b > 0,
        e > 0,
        d > 0,
        size(h * b - m * p) * 0x100_0000 <= size(m) * p + 0x80_0000 * b,
        size(t * p - l * h) * 0x100_0000 <= size(l * h) + 0x80_0000 * p,
        size(d - e) * 0x100_0000 <= e,
        size(u * d - t * p) * 0x100_0000 <= size(t) * p + 0x80_0000 * d,
    ensures
        size((u * e) * b - (l * m) * p) * 0x10_0000 <= size((l * m) * p) + 0x20_0000 * (b * (e + p
            + size(l))),
{
    let (sl, sm) = (size(l), size(m));
    let z = (sl * sm) * p;
    let lm = l * m;
    lemma_size_product(l, m);
    lemma_size_product(lm, p);
    assert(size(lm * p) == z);
    let lb = sl * b;
    let pb = p * b;
    let eb = e * b;
    let db = d * b;
    assert(lb >= 0 && pb >= 0 && eb >= 0 && db >= 0 && z >= 0) by (nonlinear_arith)
        requires
            lb == sl * b,
            pb == p * b,
            eb == e * b,
            db == d * b,
            z == (sl * sm) * p,
            sl >= 0,
            sm >= 0,
            b > 0,
            p > 0,
            e > 0,
            d > 0,
    ;
    // l h b against l m p.
    let e3 = h * b - m * p;
    let x3 = l * e3;
    lemma_bounded_product(l, e3 * 0x100_0000, sl, sm * p + 0x80_0000 * b);
    assert(l * (e3 * 0x100_0000) == x3 * 0x100_0000) by (nonlinear_arith)
        requires
            x3 == l * e3,
    ;
    assert(sl * (sm * p + 0x80_0000 * b) == z + 0x80_0000 * lb) by (nonlinear_arith)
        requires
            z == (sl * sm) * p,
            lb == sl * b,
    ;
    let lh = l * h;
    let lhb = lh * b;
    assert(lhb == lm * p + x3) by (nonlinear_arith)
        requires
            lhb == lh * b,
            lh == l * h,
            lm == l * m,
            x3 == l * e3,
            e3 == h * b - m * p,
    ;
    // t p b against l h b.
    let e2 = t * p - lh;
    let x2 = e2 * b;
    lemma_bounded_product(e2 * 0x100_0000, b, size(lh) + 0x80_0000 * p, b);
    assert((e2 * 0x100_0000) * b == x2 * 0x100_0000) by (nonlinear_arith)
        requires
            x2 == e2 * b,
    ;
    lemma_size_product(lh, b);
    assert((size(lh) + 0x80_0000 * p) * b == size(lhb) + 0x80_0000 * pb) by (nonlinear_arith)
        requires
            size(lhb) == size(lh) * b,
            pb == p * b,
    ;
    let tp = t * p;
    let tpb = tp * b;
    assert(tpb == lhb + x2) by (nonlinear_arith)
        requires
            tpb == tp * b,
            e2 == tp - lh,
            x2 == e2 * b,
            lhb == lh * b,
    ;
    // u d b against t p b.
    let e1 = u * d - tp;
    let x1 = e1 * b;
    lemma_size_product(t, p);
    lemma_bounded_product(e1 * 0x100_0000, b, size(tp) + 0x80_0000 * d, b);
    assert((e1 * 0x100_0000) * b == x1 * 0x100_0000) by (nonlinear_arith)
        requires
            x1 == e1 * b,
    ;
    lemma_size_product(tp, b);
    assert((size(tp) + 0x80_0000 * d) * b == size(tpb) + 0x80_0000 * db) by (nonlinear_arith)
        requires
            size(tpb) == size(tp) * b,
            db == d * b,
    ;
    let ud = u * d;
    let udb = ud * b;
    assert(udb == tpb + x1) by (nonlinear_arith)
        requires
            udb == ud * b,
            e1 == ud - tp,
            x1 == e1 * b,
            tpb == tp * b,
    ;
    // u e b against u d b.
    let e0 = d - e;
    let ub = u * b;
    let x0 = ub * e0;
    lemma_bounded_product(ub, e0 * 0x100_0000, size(ub), e);
    assert(ub * (e0 * 0x100_0000) == x0 * 0x100_0000) by (nonlinear_arith)
        requires
            x0 == ub * e0,
    ;
    let y = (u * e) * b;
    assert(y == ub * e) by (nonlinear_arith)
        requires
            y == (u * e) * b,
            ub == u * b,
    ;
    lemma_size_product(ub, e);
    assert(y == udb - x0) by (nonlinear_arith)
        requires
            y == ub * e,
            x0 == ub * e0,
            e0 == d - e,
            udb == ud * b,
            ud == u * d,
            ub == u * b,
    ;
    assert(db <= 2 * eb) by (nonlinear_arith)
        requires
            db == d * b,
            eb == e * b,
            d <= 2 * e,
            b > 0,
    ;
    assert(b * (e + p + sl) == eb + pb + lb) by (nonlinear_arith)
        requires
            eb == e * b,
            pb == p * b,
            lb == sl * b,
    ;
}

/// A root is below 2^66.
pub(crate) proof fn lemma_root_size(w: F32)
    requires
        positive(w),
    ensures
        w.sqrt_spec().units() <= 0x4_0000_0000_0000_0000 * unit(),
{
    lemma2_to64();
    lemma_unit();
    lemma_sqrt_miss(w);
    lemma_value(w);
    lemma_code(0x80_0000, 254);
    lemma_pow2_adds(23, 254);
    lemma_pow2_adds(149, 128);
    lemma_pow2_adds(64, 64);
    lemma_magnitude_increases(w.code_spec(), INF_CODE as int);
    let p = unit();
    let s = w.sqrt_spec().units();
    let k = 0x4_0000_0000_0000_0000int;
    let wp = w.units() * p;
    assert(wp <= (p * p) * pow2(128)) by (nonlinear_arith)
        requires
            wp == w.units() * p,
            w.units() <= p * pow2(128),
            p > 0,
    ;
    assert(pow2(128) == 0x1_0000_0000_0000_0000 * 0x1_0000_0000_0000_0000);
    if s > k * p {
        assert(s * s >= (k * k) * (p * p)) by (nonlinear_arith)
            requires
                s > k * p,
                k > 0,
                p > 0,
        ;
        let pp = p * p;
        assert(pp > 0) by (nonlinear_arith)
            requires
                pp == p * p,
                p > 0,
        ;
        assert(k * k == 16 * (0x1_0000_0000_0000_0000 * 0x1_0000_0000_0000_0000)) by (nonlinear_arith)
            requires
                k == 0x4_0000_0000_0000_0000,
        ;
        assert(s * s >= 16 * ((p * p) * pow2(128))) by (nonlinear_arith)
            requires
                s * s >= (k * k) * (p * p),
                k * k == 16 * pow2(128),
        ;
    }
}

/// A root and a number of at most one have a finite sum.
#[verifier::rlimit(60)]
#[verifier::spinoff_prover]
proof fn lemma_sum_finite(s: F32, e: F32)
    requires
        s.finite_spec(),
        s.units() >= 0,
        s.units() <= 0x4_0000_0000_0000_0000 * unit(),
        e.finite_spec(),
        0 <= e.units() <= unit(),
    ensures
        s.add_spec(e).finite_spec(),
{
    reveal(F32::add_spec);
    lemma2_to64();
    lemma_unit();
    let n = s.units() + e.units();
    let top = 194 * 0x80_0000int;
    lemma_code(0x80_0000, 193);
    lemma_pow2_adds(23, 193);
    lemma_pow2_adds(67, 149);
    lemma_pow2_adds(64, 3);
    assert(pow2(67) == 0x8_0000_0000_0000_0000);
    assert(magnitude(top) == 0x8_0000_0000_0000_0000 * unit());
    assert(n <= magnitude(top) * 1);
    lemma_round_at_most(n, 1, top);
}

/// A move is that of an update and the decay, up to rounding.
pub open spec fn is_move(
    a: Adam,
    p: F32,
    m: F32,
    v: F32,
    bc1: F32,
    bc2: F32,
    after: F32,
) -> bool {
    exists|s: int, u: int, q: int|
        {
            let one = unit() * unit();
            let k = exact_decay(a, p);
            &&& #[trigger] is_move_by(p, u, q, after)
            &&& #[trigger] is_update(a, m, v, bc1, bc2, s, u)
            &&& size(q * one - k) * 0x40_0000 <= size(k) + 0x40_0000 * (size(p.units()) * unit())
                + 0x40_0000 * one
        }
}

/// A parameter moved against an update and a decay, up to rounding.
pub open spec fn is_move_by(p: F32, u: int, q: int, after: F32) -> bool {
    size(after.units() - (p.units() - u - q)) * 0x40_0000 <= size(p.units()) + size(u) + size(q)
}

/// What a step needs to be sensible: numbers, corrections above zero, a second moment
/// that is not negative, and a small constant above zero that is at most one.
pub open spec fn is_sensible(a: Adam, v: F32, bc1: F32, bc2: F32) -> bool {
    &&& positive(bc1)
    &&& positive(bc2)
    &&& v.finite_spec()
    &&& v.units() >= 0
    &&& v.div_spec(bc2).finite_spec()
    &&& a.eps.finite_spec()
    &&& 0 < a.eps.units() <= unit()
}

/// A step moves the parameter against the first moment, corrected, times the rate and
/// over the root of the corrected second moment, and against the decay; all up to
/// rounding.
#[verifier::rlimit(60)]
#[verifier::spinoff_prover]
pub proof fn steps_follow_the_moments(a: Adam, p: F32, m: F32, v: F32, bc1: F32, bc2: F32)
    requires
        is_sensible(a, v, bc1, bc2),
        a.moved(p, m, v, bc1, bc2).finite_spec(),
    ensures
        is_move(a, p, m, v, bc1, bc2, a.moved(p, m, v, bc1, bc2)),
{
    lemma_unit();
    let one = unit();
    let after = a.moved(p, m, v, bc1, bc2);
    let h = m.div_spec(bc1);
    let t = a.lr.mul_spec(h);
    let w = v.div_spec(bc2);
    let s = w.sqrt_spec();
    let d = s.add_spec(a.eps);
    let plain = t.div_spec(d);
    let rate = a.lr.mul_spec(a.weight_decay);
    let q = rate.mul_spec(p);
    let update = if a.weight_decay.zero_spec() {
        plain
    } else {
        plain.add_spec(q)
    };
    assert(after == p.sub_spec(update));
    lemma_sub_parts(p, update);
    lemma_sub_miss(p, update);
    if !a.weight_decay.zero_spec() {
        lemma_add_parts(plain, q);
    }
    // The root.
    lemma_value(v);
    lemma_value(bc1);
    lemma_value(bc2);
    lemma_value(w);
    lemma_div_miss(v, bc2);
    let pp = one * one;
    lemma_root_of(v, bc2);
    lemma_value(a.eps);
    lemma_sum_finite(s, a.eps);
    lemma_add_miss(s, a.eps);
    let e = s.units() + a.eps.units();
    assert(d.units() > 0);
    lemma_root(v.units(), bc2.units(), w.units(), s.units(), one);
    // The update.
    lemma_value(d);
    lemma_div_parts(t, d);
    lemma_mul_parts(a.lr, h);
    lemma_div_parts(m, bc1);
    lemma_div_miss(m, bc1);
    lemma_mul_miss(a.lr, h);
    lemma_div_miss(t, d);
    lemma_update(
        a.lr.units(),
        m.units(),
        bc1.units(),
        e,
        d.units(),
        h.units(),
        t.units(),
        plain.units(),
        one,
    );
    assert(is_update(a, m, v, bc1, bc2, s.units(), plain.units()));
    // The decay.
    let x = p.units();
    if a.weight_decay.zero_spec() {
        lemma_value(a.weight_decay);
        let l = a.lr.units();
        let wd = a.weight_decay.units();
        assert((l * wd) * x == 0) by (nonlinear_arith)
            requires
                wd == 0,
        ;
        assert(0 * pp == 0 && size(x) * one >= 0 && pp >= 0) by (nonlinear_arith)
            requires
                size(x) >= 0,
                one > 0,
                pp == one * one,
        ;
        assert(is_move_by(p, plain.units(), 0, after));
    } else {
        lemma_mul_parts(rate, p);
        lemma_mul_parts(a.lr, a.weight_decay);
        lemma_mul_miss(a.lr, a.weight_decay);
        lemma_mul_miss(rate, p);
        lemma_add_miss(plain, q);
        lemma_two_products(a.lr.units(), a.weight_decay.units(), x, rate.units(), q.units(), one);
        assert(is_move_by(p, plain.units(), q.units(), after));
    }
}

/// The root of a quotient that may be zero.
proof fn lemma_root_of(v: F32, b: F32)
    requires
        v.finite_spec(),
        v.units() >= 0,
        positive(b),
        v.div_spec(b).finite_spec(),
    ensures
        ({
            let w = v.div_spec(b);
            let s = w.sqrt_spec();
            &&& w.units() >= 0
            &&& s.finite_spec()
            &&& 0 <= s.units() <= 0x4_0000_0000_0000_0000 * unit()
            &&& size(s.units() * s.units() - w.units() * unit()) * 0x100_0000 <= 3 * (s.units()
                * s.units())
        }),
{
    reveal(F32::sqrt_spec);
    lemma_unit();
    lemma_value(v);
    lemma_value(b);
    lemma_div_miss(v, b);
    let w = v.div_spec(b);
    let s = w.sqrt_spec();
    lemma_value(w);
    if v.zero_spec() {
        lemma_zero_quotient(v, b);
    }
    if w.units() > 0 {
        lemma_sqrt_miss(w);
        lemma_root_size(w);
    } else {
        assert(w.units() == 0);
        assert(s == w);
        assert(s.units() * s.units() == 0 && w.units() * unit() == 0) by (nonlinear_arith)
            requires
                s.units() == 0,
                w.units() == 0,
        ;
    }
}

// ---------------------------------------------------------------------------
// Moments and corrections
// ---------------------------------------------------------------------------

/// The first moment behind a gradient weighs the moment before it with `beta1` and
/// the gradient with the rest, up to rounding.
#[verifier::rlimit(60)]
#[verifier::spinoff_prover]
pub proof fn first_moments_weigh_gradients(a: Adam, m: F32, g: F32)
    requires
        a.first(m, g).finite_spec(),
    ensures
        ({
            let p = unit();
            let b = a.beta1.units();
            let (x, y) = (b * m.units(), (p - b) * g.units());
            size(a.first(m, g).units() * p - (x + y)) * 0x40_0000 <= 2 * size(x) + 2 * size(y)
                + 0x80_0000 * p
        }),
{
    lemma_unit();
    let one = F32 { bits: ONE_CODE };
    let p = unit();
    let keep = one.sub_spec(a.beta1);
    let (u, v) = (a.beta1.mul_spec(m), keep.mul_spec(g));
    lemma_add_parts(u, v);
    lemma_mul_parts(a.beta1, m);
    lemma_mul_parts(keep, g);
    lemma_sub_parts(one, a.beta1);
    lemma_sub_miss(one, a.beta1);
    lemma_mul_miss(a.beta1, m);
    lemma_mul_miss(keep, g);
    lemma_add_miss(u, v);
    lemma_weighted(
        a.beta1.units() * m.units(),
        g.units(),
        p - a.beta1.units(),
        keep.units(),
        u.units(),
        v.units(),
        a.first(m, g).units(),
        p,
    );
}

/// A rounded weighted sum.
#[verifier::rlimit(60)]
#[verifier::spinoff_prover]
proof fn lemma_weighted(x: int, g: int, c: int, k: int, u: int, v: int, r: int, p: int)
    requires
        p >= 0x100_0000,
        size(k - c) * 0x100_0000 <= size(c),
        size(u * p - x) * 0x100_0000 <= size(x) + 0x80_0000 * p,
        size(v * p - k * g) * 0x100_0000 <= size(k * g) + 0x80_0000 * p,
        size(r - (u + v)) * 0x100_0000 <= size(u + v),
    ensures
        size(r * p - (x + c * g)) * 0x40_0000 <= 2 * size(x) + 2 * size(c * g) + 0x80_0000 * p,
{
    let y = c * g;
    let kg = k * g;
    lemma_size_product(c, g);
    lemma_bounded_product((k - c) * 0x100_0000, g, size(c), size(g));
    assert(((k - c) * 0x100_0000) * g == (kg - y) * 0x100_0000) by (nonlinear_arith)
        requires
            kg == k * g,
            y == c * g,
    ;
    let (up, vp, rp) = (u * p, v * p, r * p);
    let e = r - (u + v);
    lemma_size_product(e, p);
    lemma_size_product(u + v, p);
    assert((u + v) * p == up + vp && e * p == rp - up - vp) by (nonlinear_arith)
        requires
            up == u * p,
            vp == v * p,
            rp == r * p,
            e == r - (u + v),
    ;
    let (se, st) = (size(e), size(u + v));
    assert((se * p) * 0x100_0000 <= st * p) by (nonlinear_arith)
        requires
            se * 0x100_0000 <= st,
            p > 0,
    ;
}

/// The second moment behind a gradient weighs the moment before it with `beta2` and
/// the square of the gradient with the rest, up to rounding.
#[verifier::rlimit(60)]
#[verifier::spinoff_prover]
pub proof fn second_moments_weigh_squares(a: Adam, v: F32, g: F32)
    requires
        a.second(v, g).finite_spec(),
    ensures
        ({
            let p = unit();
            let b = a.beta2.units();
            let (x, y) = ((b * v.units()) * p, ((p - b) * g.units()) * g.units());
            size(a.second(v, g).units() * (p * p) - (x + y)) * 0x20_0000 <= 2 * size(x) + 2 * size(y)
                + 0x80_0000 * (p * (p + size(g.units())))
        }),
{
    lemma_unit();
    let one = F32 { bits: ONE_CODE };
    let p = unit();
    let keep = one.sub_spec(a.beta2);
    let kg = keep.mul_spec(g);
    let (u, w) = (a.beta2.mul_spec(v), kg.mul_spec(g));
    lemma_add_parts(u, w);
    lemma_mul_parts(a.beta2, v);
    lemma_mul_parts(kg, g);
    lemma_mul_parts(keep, g);
    lemma_sub_parts(one, a.beta2);
    lemma_sub_miss(one, a.beta2);
    lemma_mul_miss(a.beta2, v);
    lemma_mul_miss(keep, g);
    lemma_mul_miss(kg, g);
    lemma_add_miss(u, w);
    lemma_weighted_square(
        a.beta2.units() * v.units(),
        g.units(),
        p - a.beta2.units(),
        keep.units(),
        kg.units(),
        u.units(),
        w.units(),
        a.second(v, g).units(),
        p,
    );
}

/// A rounded weighted sum with a square.
#[verifier::rlimit(80)]
#[verifier::spinoff_prover]
proof fn lemma_weighted_square(
    x: int,
    g: int,
    c: int,
    k: int,
    h: int,
    u: int,
    w: int,
    r: int,
    p: int,
)
    requires
        p >= 0x100_0000,
        size(k - c) * 0x100_0000 <= size(c),
        size(u * p - x) * 0x100_0000 <= size(x) + 0x80_0000 * p,
        size(h * p - k * g) * 0x100_0000 <= size(k * g) + 0x80_0000 * p,
        size(w * p - h * g) * 0x100_0000 <= size(h * g) + 0x80_0000 * p,
        size(r - (u + w)) * 0x100_0000 <= size(u + w),
    ensures
        size(r * (p * p) - (x * p + (c * g) * g)) * 0x20_0000 <= 2 * size(x * p) + 2 * size((c * g) * g)
            + 0x80_0000 * (p * (p + size(g))),
{
    let y = c * g;
    let yg = y * g;
    let kg = k * g;
    let sg = size(g);
    let pp = p * p;
    let pg = p * sg;
    let xp = x * p;
    lemma_size_product(c, g);
    lemma_size_product(y, g);
    lemma_size_product(x, p);
    assert(pg >= 0 && pp >= 0 && p * (p + sg) == pp + pg) by (nonlinear_arith)
        requires
            pg == p * sg,
            pp == p * p,
            p > 0,
            sg >= 0,
    ;
    // k g against c g.
    lemma_bounded_product((k - c) * 0x100_0000, g, size(c), sg);
    assert(((k - c) * 0x100_0000) * g == (kg - y) * 0x100_0000) by (nonlinear_arith)
        requires
            kg == k * g,
            y == c * g,
    ;
    assert(size(kg - y) * 0x100_0000 <= size(y));
    // h p against c g, and times g.
    let hp = h * p;
    assert(size(hp - y) * 0x80_0000 <= 2 * size(y) + 0x40_0000 * p);
    let e = hp - y;
    lemma_size_product(e, g);
    let se = size(e);
    let sy = size(y);
    let syg = sy * sg;
    assert((se * sg) * 0x80_0000 <= 2 * syg + 0x40_0000 * pg) by (nonlinear_arith)
        requires
            se * 0x80_0000 <= 2 * sy + 0x40_0000 * p,
            syg == sy * sg,
            pg == p * sg,
            sg >= 0,
    ;
    let hg = h * g;
    let hgp = hg * p;
    assert(e * g == hgp - yg) by (nonlinear_arith)
        requires
            e == hp - y,
            hp == h * p,
            yg == y * g,
            hgp == hg * p,
            hg == h * g,
    ;
    // w p p against h g p.
    let f = w * p - hg;
    lemma_size_product(f, p);
    lemma_size_product(hg, p);
    let (sf, shg) = (size(f), size(hg));
    assert((sf * p) * 0x100_0000 <= shg * p + 0x80_0000 * pp) by (nonlinear_arith)
        requires
            sf * 0x100_0000 <= shg + 0x80_0000 * p,
            pp == p * p,
            p > 0,
    ;
    let wpp = w * pp;
    assert(f * p == wpp - hgp) by (nonlinear_arith)
        requires
            f == w * p - hg,
            wpp == w * pp,
            pp == p * p,
            hgp == hg * p,
    ;
    // u p p against x p.
    let d = u * p - x;
    lemma_size_product(d, p);
    let (sd, sx) = (size(d), size(x));
    assert((sd * p) * 0x100_0000 <= sx * p + 0x80_0000 * pp) by (nonlinear_arith)
        requires
            sd * 0x100_0000 <= sx + 0x80_0000 * p,
            pp == p * p,
            p > 0,
    ;
    let upp = u * pp;
    assert(d * p == upp - xp) by (nonlinear_arith)
        requires
            d == u * p - x,
            upp == u * pp,
            pp == p * p,
            xp == x * p,
    ;
    // The sum.
    let b = r - (u + w);
    lemma_size_product(b, pp);
    lemma_size_product(u + w, pp);
    let (sb, st) = (size(b), size(u + w));
    assert((sb * pp) * 0x100_0000 <= st * pp) by (nonlinear_arith)
        requires
            sb * 0x100_0000 <= st,
            pp >= 0,
    ;
    let rpp = r * pp;
    assert((u + w) * pp == upp + wpp && b * pp == rpp - upp - wpp) by (nonlinear_arith)
        requires
            upp == u * pp,
            wpp == w * pp,
            rpp == r * pp,
            b == r - (u + w),
    ;
}

/// The corrections are one less the powers of the two factors at the step, up to
/// rounding.
pub proof fn corrections_are_what_powers_leave_of_one<M: Math>(
    math: &M,
    a: Adam,
    t: u64,
    bc1: F32,
    bc2: F32,
)
    requires
        a.corrects(math, t, bc1, bc2),
        t <= i32::MAX,
        bc1.finite_spec(),
        bc2.finite_spec(),
    ensures
        exists|p1: F32, p2: F32|
            {
                &&& #[trigger] is_powi(math, a.beta1, t as i32, p1)
                &&& #[trigger] is_powi(math, a.beta2, t as i32, p2)
                &&& size(bc1.units() + p1.units() - unit()) * 0x100_0000 <= size(unit() - p1.units())
                &&& size(bc2.units() + p2.units() - unit()) * 0x100_0000 <= size(unit() - p2.units())
            },
{
    lemma_unit();
    let one = F32 { bits: ONE_CODE };
    let (p1, p2) = choose|p1: F32, p2: F32|
        {
            &&& #[trigger] is_powi(math, a.beta1, exponent_of(t), p1)
            &&& #[trigger] is_powi(math, a.beta2, exponent_of(t), p2)
            &&& bc1 == F32 { bits: 0x3f80_0000 }.sub_spec(p1)
            &&& bc2 == F32 { bits: 0x3f80_0000 }.sub_spec(p2)
        };
    lemma_sub_parts(one, p1);
    lemma_sub_parts(one, p2);
    lemma_sub_miss(one, p1);
    lemma_sub_miss(one, p2);
    assert(is_powi(math, a.beta1, t as i32, p1) && is_powi(math, a.beta2, t as i32, p2));
}

// ---------------------------------------------------------------------------
// Steps
// ---------------------------------------------------------------------------

/// `after` weighs `before` with `beta` and `g` with the rest, up to rounding.
pub open spec fn is_weighed(beta: F32, before: F32, g: F32, after: F32) -> bool {
    let p = unit();
    let b = beta.units();
    let (x, y) = (b * before.units(), (p - b) * g.units());
    size(after.units() * p - (x + y)) * 0x40_0000 <= 2 * size(x) + 2 * size(y) + 0x80_0000 * p
}

/// `after` weighs `before` with `beta` and the square of `g` with the rest, up to rounding.
pub open spec fn is_weighed_square(beta: F32, before: F32, g: F32, after: F32) -> bool {
    let p = unit();
    let b = beta.units();
    let (x, y) = ((b * before.units()) * p, ((p - b) * g.units()) * g.units());
    size(after.units() * (p * p) - (x + y)) * 0x20_0000 <= 2 * size(x) + 2 * size(y) + 0x80_0000 * (p
        * (p + size(g.units())))
}

/// The step of one parameter: both moments take up the gradient, and the parameter moves by
/// the moments behind it.
pub open spec fn is_number_step(
    a: Adam,
    bc1: F32,
    bc2: F32,
    g: F32,
    before: (F32, F32, F32),
    after: (F32, F32, F32),
) -> bool {
    &&& after.1.finite_spec() ==> is_weighed(a.beta1, before.1, g, after.1)
    &&& after.2.finite_spec() ==> is_weighed_square(a.beta2, before.2, g, after.2)
    &&& after.0.finite_spec() && is_sensible(a, after.2, bc1, bc2) ==> is_move(
        a,
        before.0,
        after.1,
        after.2,
        bc1,
        bc2,
        after.0,
    )
}

/// A step takes the gradient up into both moments of each parameter, and moves the
/// parameter by the moments behind it.
pub proof fn steps_take_up_the_gradient_and_move(
    a: Adam,
    bc1: F32,
    bc2: F32,
    g: Seq<F32>,
    before: (Seq<F32>, Seq<F32>, Seq<F32>),
    after: (Seq<F32>, Seq<F32>, Seq<F32>),
    n: int,
    i: int,
)
    requires
        a.stepped(bc1, bc2, g, before, after, n),
        0 <= i < n,
    ensures
        is_number_step(
            a,
            bc1,
            bc2,
            g[i],
            (before.0[i], before.1[i], before.2[i]),
            (after.0[i], after.1[i], after.2[i]),
        ),
{
    let (m, v) = (after.1[i], after.2[i]);
    if m.finite_spec() {
        first_moments_weigh_gradients(a, before.1[i], g[i]);
    }
    if v.finite_spec() {
        second_moments_weigh_squares(a, before.2[i], g[i]);
    }
    assert(after.0[i] == a.moved(before.0[i], m, v, bc1, bc2));
    if after.0[i].finite_spec() && is_sensible(a, v, bc1, bc2) {
        steps_follow_the_moments(a, before.0[i], m, v, bc1, bc2);
    }
}

/// A trainer steps every number of its model: with the rate of the step, counted from one,
/// and with decay for matrices alone.
pub proof fn trainers_step_every_number<M: Math>(
    math: &M,
    a: LlamaTrainer,
    b: LlamaTrainer,
    lr: F32,
    bc1: F32,
    bc2: F32,
    i: int,
    j: int,
)
    requires
        optimized_via(math, a, b, lr, bc1, bc2),
        0 <= i < model_parts(a.model).len(),
        0 <= j < a.grads.parts()[i].len(),
    ensures
        b.step_t == a.step_t + 1,
        a.lr_schedule is None ==> lr == a.adam.lr,
        a.lr_schedule is Some ==> a.lr_schedule->0.is_rate(math, b.step_t, lr),
        a.adam.corrects(math, b.step_t, bc1, bc2),
        ({
            let settings = Adam {
                lr,
                weight_decay: if part_is_matrix(a.model, i) {
                    a.weight_decay
                } else {
                    F32 { bits: 0 }
                },
                ..a.adam
            };
            is_number_step(
                settings,
                bc1,
                bc2,
                a.grads.parts()[i][j],
                (model_parts(a.model)[i][j], a.m.parts()[i][j], a.v.parts()[i][j]),
                (model_parts(b.model)[i][j], b.m.parts()[i][j], b.v.parts()[i][j]),
            )
        }),
{
    let g = a.grads.parts()[i];
    let settings = settings_for(a.adam, lr, a.weight_decay, part_is_matrix(a.model, i));
    let before = (model_parts(a.model)[i], a.m.parts()[i], a.v.parts()[i]);
    let after = (model_parts(b.model)[i], b.m.parts()[i], b.v.parts()[i]);
    assert(settings.stepped(bc1, bc2, g, before, after, g.len() as int));
    steps_take_up_the_gradient_and_move(settings, bc1, bc2, g, before, after, g.len() as int, j);
}

} // verus!
