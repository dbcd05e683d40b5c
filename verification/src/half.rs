//! Half-precision (binary16) numbers in files.
use crate::float::{lemma_code, lemma_round_exact, magnitude, make, round, F32, INF_CODE};
use vstd::arithmetic::power2::{
    lemma2_to64, lemma_pow2_adds, lemma_pow2_pos, lemma_pow2_strictly_increases, lemma_pow2_unfold,
    pow2,
};
use vstd::bits::{lemma_u64_shl_is_mul, lemma_u64_shr_is_div};
use vstd::prelude::*;

verus! {

/// Code of infinity: the sixteen bits without the sign.
pub const HALF_INF: u16 = 0x7c00;

/// The magnitude with code `c`, in units of 2^-24.
pub open spec fn half_magnitude(c: int) -> int {
    if c / 1024 == 0 {
        c % 1024
    } else {
        (1024 + c % 1024) * pow2((c / 1024 - 1) as nat)
    }
}

/// The bits without the sign.
pub open spec fn half_code(h: u16) -> int {
    h as int % 0x8000
}

/// The sign bit.
pub open spec fn half_neg(h: u16) -> bool {
    h >= 0x8000
}

/// The number that half-precision bits stand for. Every finite one is exact;
/// of not-a-number the fraction bits are kept.
pub open spec fn half_to_f32(h: u16) -> F32 {
    if half_code(h) >= HALF_INF {
        make(half_neg(h), INF_CODE + (half_code(h) - HALF_INF) * 0x2000)
    } else {
        make(half_neg(h), round(half_magnitude(half_code(h)) * pow2(125), 1))
    }
}

/// `c` is the half-precision code nearest to `mag`, given in units of 2^-149; of
/// two equally near the even one.
pub open spec fn nearest_half(mag: int, c: int) -> bool {
    &&& 0 <= c <= HALF_INF
    &&& c > 0 ==> {
        ||| (half_magnitude(c - 1) + half_magnitude(c)) * pow2(125) < 2 * mag
        ||| (half_magnitude(c - 1) + half_magnitude(c)) * pow2(125) == 2 * mag && c % 2 == 0
    }
    &&& c < HALF_INF ==> {
        ||| 2 * mag < (half_magnitude(c) + half_magnitude(c + 1)) * pow2(125)
        ||| 2 * mag == (half_magnitude(c) + half_magnitude(c + 1)) * pow2(125) && c % 2 == 0
    }
}

/// The code that a magnitude rounds to.
pub open spec fn round_half(mag: int) -> int {
    choose|c: int| nearest_half(mag, c)
}

/// The half-precision bits nearest to a number; a not-a-number becomes the
/// quiet one.
pub open spec fn f32_to_half(x: F32) -> u16 {
    let sign = if x.neg_spec() { 0x8000int } else { 0int };
    if x.nan_spec() {
        (sign + 0x7e00) as u16
    } else if x.inf_spec() {
        (sign + 0x7c00) as u16
    } else {
        (sign + round_half(x.mag())) as u16
    }
}

proof fn lemma_half_code(q: int, e: int)
    requires
        e >= 0,
        1024 <= q < 2048 || (e == 0 && 0 <= q < 2048),
    ensures
        half_magnitude(e * 1024 + q) == q * pow2(e as nat),
        half_magnitude(e * 1024 + q + 1) == (q + 1) * pow2(e as nat),
{
    lemma2_to64();
    let c = e * 1024 + q;
    if q < 1024 {
        assert(q * pow2(0) == q && (q + 1) * pow2(0) == q + 1) by (nonlinear_arith)
            requires
                pow2(0) == 1,
        ;
        if q + 1 == 1024 {
            assert((c + 1) / 1024 == 1 && (c + 1) % 1024 == 0);
        }
    } else {
        assert(c / 1024 == e + 1 && c % 1024 == q - 1024);
        if q + 1 < 2048 {
            assert((c + 1) / 1024 == e + 1 && (c + 1) % 1024 == q + 1 - 1024);
        } else {
            assert((c + 1) / 1024 == e + 2 && (c + 1) % 1024 == 0);
            lemma_pow2_unfold((e + 1) as nat);
            assert(1024 * pow2((e + 1) as nat) == (q + 1) * pow2(e as nat)) by (nonlinear_arith)
                requires
                    pow2((e + 1) as nat) == 2 * pow2(e as nat),
                    q + 1 == 2048,
            ;
        }
    }
}

proof fn lemma_half_decode(c: int) -> (r: (int, int))
    requires
        c >= 0,
    ensures
        r.1 >= 0,
        1024 <= r.0 < 2048 || (r.1 == 0 && 0 <= r.0 < 2048),
        c == r.1 * 1024 + r.0,
        half_magnitude(c) == r.0 * pow2(r.1 as nat),
        half_magnitude(c + 1) == (r.0 + 1) * pow2(r.1 as nat),
{
    let e = c / 1024;
    let r = if e == 0 {
        (c % 1024, 0int)
    } else {
        (1024 + c % 1024, e - 1)
    };
    lemma_half_code(r.0, r.1);
    r
}

proof fn lemma_half_increases(a: int, b: int)
    requires
        0 <= a < b,
    ensures
        0 <= half_magnitude(a) < half_magnitude(b),
    decreases b - a,
{
    let (q, e) = lemma_half_decode(a);
    lemma_pow2_pos(e as nat);
    assert(0 <= q * pow2(e as nat) < (q + 1) * pow2(e as nat)) by (nonlinear_arith)
        requires
            pow2(e as nat) > 0,
            q >= 0,
    ;
    if a + 1 < b {
        lemma_half_increases(a + 1, b);
    }
}

proof fn lemma_nearest_half_step(mag: int, a: int, b: int)
    requires
        nearest_half(mag, a),
        a < b,
    ensures
        !nearest_half(mag, b),
{
    lemma_half_increases(a, a + 1);
    lemma_half_increases(b - 1, b);
    lemma_pow2_pos(125);
    let lo = half_magnitude(a) + half_magnitude(a + 1);
    let hi = half_magnitude(b - 1) + half_magnitude(b);
    if a + 1 < b {
        lemma_half_increases(a, b - 1);
        lemma_half_increases(a + 1, b);
        let p = pow2(125) as int;
        assert(lo * p < hi * p) by (nonlinear_arith)
            requires
                lo < hi,
                p > 0,
        ;
    }
}

proof fn lemma_round_half_unique(mag: int, c: int)
    requires
        nearest_half(mag, c),
    ensures
        round_half(mag) == c,
{
    let r = round_half(mag);
    if r < c {
        lemma_nearest_half_step(mag, r, c);
    } else if c < r {
        lemma_nearest_half_step(mag, c, r);
    }
}

/// A half-precision magnitude is its own nearest one.
proof fn lemma_round_half_exact(c: int)
    requires
        0 <= c < HALF_INF,
    ensures
        round_half(half_magnitude(c) * pow2(125)) == c,
{
    lemma_pow2_pos(125);
    let p = pow2(125) as int;
    let m = half_magnitude(c);
    lemma_half_increases(c, c + 1);
    let up = m + half_magnitude(c + 1);
    assert(2 * (m * p) < up * p) by (nonlinear_arith)
        requires
            up > 2 * m,
            p > 0,
    ;
    if c > 0 {
        lemma_half_increases(c - 1, c);
        let down = half_magnitude(c - 1) + m;
        assert(down * p < 2 * (m * p)) by (nonlinear_arith)
            requires
                down < 2 * m,
                p > 0,
        ;
    }
    lemma_round_half_unique(m * p, c);
}

/// The code of a power-of-two multiple with a small significand.
proof fn lemma_exact_code(q: int, e: int, s: int, f: int)
    requires
        0x80_0000 <= s < 0x100_0000,
        f >= 0,
        f * 0x80_0000 + s < INF_CODE,
        s * pow2(f as nat) == q * pow2(e as nat),
        e >= 0,
    ensures
        round(q * pow2(e as nat), 1) == f * 0x80_0000 + s,
{
    lemma_code(s, f);
    lemma_round_exact(f * 0x80_0000 + s);
}

/// Half precision to single precision, exactly.
pub fn f16_to_f32(h: u16) -> (r: F32)
    ensures
        r == half_to_f32(h),
{
    let neg: bool = h >= 0x8000;
    let c: u16 = h % 0x8000;
    let exp: u16 = c / 1024;
    let mant: u32 = (c % 1024) as u32;
    let sign: u32 = if neg {
        0x8000_0000
    } else {
        0
    };
    if exp == 31 {
        return F32 { bits: sign + INF_CODE + mant * 0x2000 };
    }
    proof {
        lemma2_to64();
    }
    if exp == 0 {
        if mant == 0 {
            proof {
                lemma_code(0, 0);
                assert(0 * pow2(125) == 0) by (nonlinear_arith);
                lemma_round_exact(0);
            }
            return F32 { bits: sign };
        }
        // The value is `mant * 2^-24`: shift until the leading bit is in place.
        let mut m: u32 = mant;
        let mut k: u32 = 0;
        while m < 1024
            invariant
                0 < m < 2048,
                mant < 1024,
                mant >= 1,
                m == mant * pow2(k as nat),
                k <= 10,
                m < 1024 ==> k < 10,
            decreases 2048 - m,
        {
            proof {
                lemma_pow2_unfold((k + 1) as nat);
                lemma2_to64();
                assert(mant * (2 * pow2(k as nat)) == 2 * m) by (nonlinear_arith)
                    requires
                        m == mant * pow2(k as nat),
                ;
                if k + 1 == 10 {
                    assert(2 * m >= 1024) by (nonlinear_arith)
                        requires
                            2 * m == mant * 1024,
                            mant >= 1,
                    ;
                }
            }
            m = m * 2;
            k = k + 1;
        }
        proof {
            // 1024..2047 times 2^13 is a full significand.
            let s = m * 0x2000;
            let f = 112 - k;
            lemma_pow2_adds(k as nat, (125 - k) as nat);
            lemma_pow2_adds(13, (112 - k) as nat);
            assert(s * pow2(f as nat) == mant * pow2(125)) by (nonlinear_arith)
                requires
                    s == m * 0x2000,
                    m == mant * pow2(k as nat),
                    pow2((125 - k) as nat) == 0x2000 * pow2(f as nat),
                    pow2(125) == pow2(k as nat) * pow2((125 - k) as nat),
            ;
            lemma_exact_code(mant as int, 125, s, f);
        }
        // Exponent field 113 - k, fraction bits below the leading one.
        return F32 { bits: sign + (113 - k) * 0x80_0000 + (m - 1024) * 0x2000 };
    }
    proof {
        let s = (1024 + mant) * 0x2000;
        let f = exp - 1 + 112;
        lemma_pow2_adds((exp - 1) as nat, 125);
        lemma_pow2_adds(13, (exp - 1 + 112) as nat);
        assert((13 + (exp - 1 + 112) as nat) == (exp - 1) as nat + 125);
        let q = (1024 + mant) * pow2((exp - 1) as nat);
        assert(s * pow2(f as nat) == q * pow2(125)) by (nonlinear_arith)
            requires
                s == (1024 + mant) * 0x2000,
                q == (1024 + mant) * pow2((exp - 1) as nat),
                0x2000 * pow2(f as nat) == pow2((exp - 1) as nat) * pow2(125),
        ;
        lemma_exact_code(q, 125, s, f as int);
    }
    F32 { bits: sign + (exp as u32 + 112) * 0x80_0000 + mant * 0x2000 }
}

/// Single precision to half precision, to nearest with ties to even.
pub fn f32_to_f16(value: F32) -> (h: u16)
    ensures
        h == f32_to_half(value),
{
    let sign: u16 = if value.is_sign_negative() {
        0x8000
    } else {
        0
    };
    if value.is_nan() {
        return sign + 0x7e00;
    }
    if value.is_infinite() {
        return sign + 0x7c00;
    }
    let c32: u32 = value.code();
    let ef: u32 = c32 / 0x80_0000;
    let frac: u32 = c32 % 0x80_0000;
    proof {
        lemma2_to64();
        lemma_pow2_pos(125);
    }
    let ghost p = pow2(125) as int;
    // Significand `s` at exponent `e` (units of 2^-149).
    let s: u64 = if ef == 0 {
        frac as u64
    } else {
        frac as u64 + 0x80_0000
    };
    let e: u32 = if ef == 0 {
        0
    } else {
        ef - 1
    };
    proof {
        lemma_code(s as int, e as int);
        assert(value.mag() == s * pow2(e as nat));
    }
    // Keep eleven bits, fewer below the smallest normal half.
    let k: u32 = if e >= 112 {
        13
    } else {
        125 - e
    };
    if k >= 25 {
        proof {
            // Less than half of the smallest positive half.
            lemma_half_code(0, 0);
            if e < 100 {
                lemma_pow2_strictly_increases(e as nat, 100);
            }
            lemma_pow2_adds(25, 100);
            let g = pow2(e as nat) as int;
            assert(2 * (s * g) < p) by (nonlinear_arith)
                requires
                    s < 0x100_0000,
                    0 <= g <= pow2(100),
                    p == 0x200_0000 * pow2(100),
                    pow2(100) > 0,
            ;
            assert((half_magnitude(0) + half_magnitude(1)) * p == p) by (nonlinear_arith)
                requires
                    half_magnitude(0) == 0,
                    half_magnitude(1) == 1,
            ;
            assert(nearest_half(value.mag(), 0));
            lemma_round_half_unique(value.mag(), 0);
        }
        return sign;
    }
    let exp: u32 = e + k - 125;
    let q: u64 = s >> (k as u64);
    proof {
        lemma_u64_shr_is_div(s, k as u64);
        lemma_pow2_pos(k as nat);
        let t = pow2(k as nat) as int;
        assert(q * t <= s && s < q * t + t) by (nonlinear_arith)
            requires
                q == s as int / t,
                t > 0,
        ;
        lemma_u64_shl_is_mul(q, k as u64);
        lemma_pow2_strictly_increases((k - 1) as nat, 25);
        assert(1 * pow2((k - 1) as nat) == pow2((k - 1) as nat)) by (nonlinear_arith);
        lemma_u64_shl_is_mul(1, (k - 1) as u64);
        lemma_pow2_unfold(k as nat);
        if k > 13 {
            lemma_pow2_strictly_increases(13, k as nat);
        }
        assert(q < 2048) by (nonlinear_arith)
            requires
                q * t <= s,
                s < 0x100_0000,
                t >= 0x2000,
        ;
        if exp > 0 {
            assert(q >= 1024) by (nonlinear_arith)
                requires
                    s < q * t + t,
                    s >= 0x80_0000,
                    t == 0x2000,
            ;
        }
        lemma_half_code(q as int, exp as int);
        // The cell of `q`, in units of 2^-149.
        let g = pow2(e as nat) as int;
        let x = pow2(exp as nat) as int;
        lemma_pow2_adds(k as nat, e as nat);
        lemma_pow2_adds(exp as nat, 125);
        assert(k as nat + e as nat == exp as nat + 125);
        assert(t * g == x * p);
        lemma_pow2_pos(e as nat);
        lemma_pow2_pos(exp as nat);
        let rem = s - q * t;
        let hf = pow2((k - 1) as nat) as int;
        let lo = half_magnitude(exp * 1024 + q);
        let hi = half_magnitude(exp * 1024 + q + 1);
        assert(lo * p == q * t * g) by (nonlinear_arith)
            requires
                lo == q * x,
                t * g == x * p,
        ;
        assert(hi * p == (q + 1) * t * g) by (nonlinear_arith)
            requires
                hi == (q + 1) * x,
                t * g == x * p,
        ;
        let mid = (lo + hi) * p;
        assert(mid == 2 * ((q * t + hf) * g)) by (nonlinear_arith)
            requires
                mid == (lo + hi) * p,
                lo * p == q * t * g,
                hi * p == (q + 1) * t * g,
                t == 2 * hf,
        ;
        let m = value.mag();
        assert(m == s * g);
        assert(rem > hf ==> mid < 2 * m) by (nonlinear_arith)
            requires
                mid == 2 * ((q * t + hf) * g),
                m == s * g,
                s == q * t + rem,
                g > 0,
        ;
        assert(rem == hf ==> mid == 2 * m) by (nonlinear_arith)
            requires
                mid == 2 * ((q * t + hf) * g),
                m == s * g,
                s == q * t + rem,
        ;
        assert(rem < hf ==> 2 * m < mid) by (nonlinear_arith)
            requires
                mid == 2 * ((q * t + hf) * g),
                m == s * g,
                s == q * t + rem,
                g > 0,
        ;
        assert(lo * p <= m && m < hi * p) by (nonlinear_arith)
            requires
                lo * p == q * t * g,
                hi * p == (q + 1) * t * g,
                m == s * g,
                q * t <= s < q * t + t,
                g > 0,
        ;
    }
    let rem: u64 = s - (q << (k as u64));
    let half: u64 = 1u64 << ((k - 1) as u64);
    let code: u32 = exp * 1024 + q as u32;
    let up: bool = rem > half || (rem == half && q % 2 == 1);
    proof {
        let c = code as int;
        let m = value.mag();
        let lo = half_magnitude(c);
        let hi = half_magnitude(c + 1);
        assert(c % 2 == q as int % 2);
        if c >= HALF_INF {
            let inf = HALF_INF as int;
            lemma_half_increases(inf - 1, inf);
            if inf < c {
                lemma_half_increases(inf, c);
            }
            let mid = half_magnitude(inf - 1) + half_magnitude(inf);
            assert(mid * p < 2 * m) by (nonlinear_arith)
                requires
                    lo * p <= m,
                    mid < 2 * lo,
                    p > 0,
            ;
            assert(nearest_half(m, inf));
            lemma_round_half_unique(m, inf);
        } else if up {
            if c + 1 < HALF_INF {
                lemma_half_increases(c + 1, c + 2);
                let mid = hi + half_magnitude(c + 2);
                assert(2 * m < mid * p) by (nonlinear_arith)
                    requires
                        m < hi * p,
                        mid > 2 * hi,
                        p > 0,
                ;
            }
            assert(nearest_half(m, c + 1));
            lemma_round_half_unique(m, c + 1);
        } else {
            if c > 0 {
                lemma_half_increases(c - 1, c);
                let mid = half_magnitude(c - 1) + lo;
                assert(mid * p < 2 * m) by (nonlinear_arith)
                    requires
                        lo * p <= m,
                        mid < 2 * lo,
                        p > 0,
                ;
            }
            assert(nearest_half(m, c));
            lemma_round_half_unique(m, c);
        }
    }
    if code >= 0x7c00 {
        return sign + 0x7c00;
    }
    if up {
        sign + code as u16 + 1
    } else {
        sign + code as u16
    }
}

/// Every half-precision number other than not-a-number survives the way to
/// single precision and back, bit for bit.
pub proof fn half_round_trips(h: u16)
    requires
        half_code(h) <= HALF_INF,
    ensures
        f32_to_half(half_to_f32(h)) == h,
{
    let c = half_code(h);
    if c < HALF_INF {
        let mag = half_magnitude(c) * pow2(125);
        lemma_round_half_exact(c);
        lemma_half_exact(c);
    }
}

/// A finite half-precision magnitude is a single-precision one.
pub proof fn lemma_half_exact(c: int)
    requires
        0 <= c < HALF_INF,
    ensures
        0 <= round(half_magnitude(c) * pow2(125), 1) < INF_CODE,
        magnitude(round(half_magnitude(c) * pow2(125), 1)) == half_magnitude(c) * pow2(125),
{
    lemma2_to64();
    if c == 0 {
        lemma_code(0, 0);
        lemma_half_code(0, 0);
        assert(0 * pow2(125) == 0) by (nonlinear_arith);
        lemma_round_exact(0);
    } else {
        let (q, e) = lemma_half_decode(c);
        lemma_pow2_adds(e as nat, 125);
        assert(q * pow2(e as nat) * pow2(125) == q * pow2((e + 125) as nat)) by (nonlinear_arith)
            requires
                pow2((e + 125) as nat) == pow2(e as nat) * pow2(125),
        ;
        lemma_small_times_power(q, e + 125, 11);
    }
}

/// A small number times a power of two in range is a single-precision magnitude.
pub(crate) proof fn lemma_small_times_power(q: int, e: int, bits: nat)
    requires
        0 < q < pow2(bits),
        bits <= 24,
        24 <= e,
        e + bits <= 253,
    ensures
        0 <= round(q * pow2(e as nat), 1) < INF_CODE,
        magnitude(round(q * pow2(e as nat), 1)) == q * pow2(e as nat),
    decreases 0x100_0000 - q,
{
    lemma2_to64();
    if bits < 24 {
        lemma_pow2_strictly_increases(bits, 24);
    }
    if q >= 0x80_0000 {
        lemma_code(q, e);
        lemma_round_exact(e * 0x80_0000 + q);
    } else {
        lemma_doubling(q, e);
    }
}

proof fn lemma_doubling(q: int, e: int)
    requires
        0 < q < 0x80_0000,
        1 <= e <= 252,
    ensures
        0 <= round(q * pow2(e as nat), 1) < INF_CODE,
        magnitude(round(q * pow2(e as nat), 1)) == q * pow2(e as nat),
    decreases 0x80_0000 - q, e,
{
    lemma2_to64();
    lemma_pow2_unfold(e as nat);
    let g = pow2((e - 1) as nat) as int;
    assert(q * pow2(e as nat) == (2 * q) * g) by (nonlinear_arith)
        requires
            pow2(e as nat) == 2 * g,
    ;
    if 2 * q >= 0x80_0000 || e == 1 {
        lemma_code(2 * q, e - 1);
        lemma_round_exact((e - 1) * 0x80_0000 + 2 * q);
    } else {
        lemma_doubling(2 * q, e - 1);
    }
}

} // verus!
