//! How far rounding moves a value, and the order that it keeps.
use crate::float::{
    lemma_code, lemma_decode, lemma_magnitude_increases, lemma_round_exists, magnitude, nearest,
    round, INF_CODE,
};
use vstd::arithmetic::power2::{lemma2_to64, lemma_pow2_pos, lemma_pow2_unfold, pow2};
use vstd::prelude::*;

verus! {

/// The distance of a value, as a multiple of `den`, from what it was rounded from.
pub open spec fn miss(num: int, den: int, c: int) -> int {
    if magnitude(c) * den < num {
        num - magnitude(c) * den
    } else {
        magnitude(c) * den - num
    }
}

/// Rounding moves a value by at most its 2^24th part and half of the least
/// magnitude; an integer by at most its 2^24th part.
#[verifier::rlimit(60)]
#[verifier::spinoff_prover]
pub(crate) proof fn lemma_miss(num: int, den: int, c: int)
    requires
        den > 0,
        num >= 0,
        0 <= c < INF_CODE,
        nearest(num, den, c),
    ensures
        miss(num, den, c) * 0x100_0000 <= num + 0x80_0000 * den,
        den == 1 ==> miss(num, den, c) * 0x100_0000 <= num,
{
    lemma2_to64();
    let (q, e) = lemma_decode(c);
    let p = pow2(e as nat) as int;
    lemma_pow2_pos(e as nat);
    let mid = magnitude(c);
    assert(mid == q * p);
    let w = p * den;
    let x = mid * den;
    assert(x == q * w) by (nonlinear_arith)
        requires
            x == mid * den,
            mid == q * p,
            w == p * den,
    ;
    assert(w >= den) by (nonlinear_arith)
        requires
            w == p * den,
            p >= 1,
            den > 0,
    ;
    if e > 0 {
        assert(x >= 0x80_0000 * w) by (nonlinear_arith)
            requires
                x == q * w,
                q >= 0x80_0000,
                w > 0,
        ;
    } else {
        assert(p == 1);
        assert(w == den) by (nonlinear_arith)
            requires
                w == p * den,
                p == 1,
        ;
    }
    if x < num {
        let above = magnitude(c + 1);
        assert(above == (q + 1) * p);
        assert((mid + above) * den == 2 * x + w) by (nonlinear_arith)
            requires
                mid == q * p,
                above == (q + 1) * p,
                x == q * w,
                w == p * den,
        ;
        assert(2 * num <= 2 * x + w);
        assert(2 * miss(num, den, c) <= w);
    } else if x > num {
        if c == 0 {
            assert(q == 0);
            assert(x == 0) by (nonlinear_arith)
                requires
                    x == q * w,
                    q == 0,
            ;
        }
        assert(c > 0);
        lemma_gap_below(c, q, e);
        let below = magnitude(c - 1);
        let gap = mid - below;
        assert((below + mid) * den == 2 * x - gap * den) by (nonlinear_arith)
            requires
                gap == mid - below,
                x == mid * den,
        ;
        assert(2 * num >= 2 * x - gap * den);
        assert(gap * den <= w) by (nonlinear_arith)
            requires
                gap <= p,
                den > 0,
                w == p * den,
        ;
        assert(2 * miss(num, den, c) <= gap * den);
        if e > 0 {
            let g = gap * den;
            assert(below * den >= 0x80_0000 * g) by (nonlinear_arith)
                requires
                    below >= 0x80_0000 * gap,
                    den > 0,
                    g == gap * den,
            ;
            assert(below * den == x - g) by (nonlinear_arith)
                requires
                    gap == mid - below,
                    x == mid * den,
                    g == gap * den,
            ;
            assert(num >= x - g);
        }
    }
}

/// What lies between a magnitude and the one below it.
pub(crate) proof fn lemma_gap_below(c: int, q: int, e: int)
    requires
        c > 0,
        e >= 0,
        0x80_0000 <= q < 0x100_0000 || (e == 0 && 0 <= q < 0x100_0000),
        c == e * 0x80_0000 + q,
        magnitude(c) == q * pow2(e as nat),
    ensures
        0 < magnitude(c) - magnitude(c - 1) <= pow2(e as nat),
        e > 0 ==> magnitude(c - 1) >= 0x80_0000 * (magnitude(c) - magnitude(c - 1)),
{
    lemma2_to64();
    lemma_magnitude_increases(c - 1, c);
    let p = pow2(e as nat) as int;
    lemma_pow2_pos(e as nat);
    if q > 0x80_0000 || e == 0 {
        if q > 0 {
            lemma_code(q - 1, e);
            assert(q * p - (q - 1) * p == p) by (nonlinear_arith);
            if e > 0 {
                assert((q - 1) * p >= 0x80_0000 * p) by (nonlinear_arith)
                    requires
                        q - 1 >= 0x80_0000,
                        p > 0,
                ;
            }
        }
    } else {
        let h = pow2((e - 1) as nat) as int;
        lemma_pow2_unfold(e as nat);
        lemma_pow2_pos((e - 1) as nat);
        lemma_code(0xff_ffff, e - 1);
        assert(c - 1 == (e - 1) * 0x80_0000 + 0xff_ffff);
        assert(0x80_0000 * p - 0xff_ffff * h == h) by (nonlinear_arith)
            requires
                p == 2 * h,
        ;
    }
}

/// What is at most a magnitude rounds to at most its code.
pub(crate) proof fn lemma_round_at_most(num: int, den: int, c: int)
    requires
        den > 0,
        num >= 0,
        0 <= c <= INF_CODE,
        num <= magnitude(c) * den,
    ensures
        0 <= round(num, den) <= c,
{
    lemma_round_exists(num, den);
    let r = round(num, den);
    if r > c {
        let a = magnitude(r - 1);
        let b = magnitude(r);
        let k = magnitude(c);
        lemma_magnitude_increases(r - 1, r);
        if c < r - 1 {
            lemma_magnitude_increases(c, r - 1);
        }
        assert((a + b) * den > 2 * (k * den)) by (nonlinear_arith)
            requires
                a >= k,
                b > k,
                den > 0,
        ;
    }
}

/// Rounding keeps the order.
pub(crate) proof fn lemma_round_ordered(num: int, more: int, den: int)
    requires
        den > 0,
        0 <= num <= more,
    ensures
        round(num, den) <= round(more, den),
{
    lemma_round_exists(num, den);
    lemma_round_exists(more, den);
    let r = round(num, den);
    let s = round(more, den);
    if r > s {
        let a = magnitude(r - 1) + magnitude(r);
        let b = magnitude(s) + magnitude(s + 1);
        if s < r - 1 {
            lemma_magnitude_increases(s, r - 1);
            lemma_magnitude_increases(s + 1, r);
            assert(a * den > b * den) by (nonlinear_arith)
                requires
                    a > b,
                    den > 0,
            ;
        }
    }
}

/// A magnitude at or above that of a code rounds to no lower code.
pub(crate) proof fn lemma_round_at_least(num: int, c: int)
    requires
        0 <= c <= INF_CODE,
        num >= magnitude(c),
    ensures
        round(num, 1) >= c,
{
    lemma_code(0, 0);
    lemma2_to64();
    if c > 0 {
        lemma_magnitude_increases(0, c);
    }
    lemma_round_exists(num, 1);
    let r = round(num, 1);
    assert(nearest(num, 1, r));
    if r < c {
        lemma_magnitude_increases(r, c);
        if r + 1 < c {
            lemma_magnitude_increases(r + 1, c);
        }
    }
}

} // verus!
