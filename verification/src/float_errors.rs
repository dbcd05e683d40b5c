//! How far each operation on numbers misses the exact result, and the order that
//! it keeps. Values are counted in units of 2^-149.
use crate::float::{
    lemma_code, lemma_decode, lemma_magnitude_increases, lemma_round_exists,
    lemma_round_unique, magnitude, nearest, nearest_root, of_int, round, round_root, F32, INF_CODE,
    ONE_CODE,
};
use crate::rounding::{
    lemma_gap_below, lemma_miss, lemma_round_at_least, lemma_round_at_most, lemma_round_ordered,
};
use vstd::arithmetic::power2::{lemma2_to64, lemma_pow2_adds, lemma_pow2_pos, pow2};
use vstd::prelude::*;

verus! {

/// One, in units.
pub open spec fn unit() -> int {
    pow2(149) as int
}

/// The size of an integer.
pub open spec fn size(x: int) -> int {
    if x < 0 {
        -x
    } else {
        x
    }
}

/// A finite number above zero.
pub open spec fn positive(x: F32) -> bool {
    x.finite_spec() && x.units() > 0
}

// ---------------------------------------------------------------------------
// Values
// ---------------------------------------------------------------------------

/// The value of a finite number.
pub(crate) proof fn lemma_value(x: F32)
    requires
        x.finite_spec(),
    ensures
        x.mag() >= 0,
        size(x.units()) == x.mag(),
        x.mag() == 0 <==> x.zero_spec(),
        x.units() > 0 <==> x.key() > 0,
        x.units() < 0 <==> x.key() < 0,
{
    lemma_code(0, 0);
    lemma2_to64();
    if x.code_spec() > 0 {
        lemma_magnitude_increases(0, x.code_spec());
    }
}

/// One is more than 2^148 units.
pub(crate) proof fn lemma_unit()
    ensures
        unit() >= 0x100_0000,
        magnitude(ONE_CODE as int) == unit(),
        (F32 { bits: ONE_CODE }).units() == unit(),
        (F32 { bits: ONE_CODE }).mag() == unit(),
        (F32 { bits: ONE_CODE }).finite_spec(),
{
    lemma2_to64();
    lemma_code(0x80_0000, 126);
    lemma_pow2_adds(23, 126);
    lemma_pow2_adds(24, 125);
    lemma_pow2_pos(125);
    assert(pow2(24) * pow2(125) >= 0x100_0000) by (nonlinear_arith)
        requires
            pow2(24) == 0x100_0000,
            pow2(125) >= 1,
    ;
}

/// The order of keys is that of values.
pub(crate) proof fn lemma_order(a: F32, b: F32)
    requires
        a.finite_spec(),
        b.finite_spec(),
    ensures
        a.key() <= b.key() <==> a.units() <= b.units(),
        a.key() < b.key() <==> a.units() < b.units(),
{
    lemma_value(a);
    lemma_value(b);
    let (c, d) = (a.code_spec(), b.code_spec());
    if c < d {
        lemma_magnitude_increases(c, d);
    } else if d < c {
        lemma_magnitude_increases(d, c);
    }
}

/// A product is no larger than the product of two bounds.
pub(crate) proof fn lemma_bounded_product(x: int, y: int, m: int, n: int)
    requires
        size(x) <= m,
        size(y) <= n,
    ensures
        size(x * y) <= m * n,
{
    assert(-(m * n) <= x * y && x * y <= m * n) by (nonlinear_arith)
        requires
            -m <= x <= m,
            -n <= y <= n,
    ;
}

/// The size of a product.
pub(crate) proof fn lemma_size_product(x: int, y: int)
    ensures
        size(x * y) == size(x) * size(y),
{
    assert(-x * -y == x * y && -x * y == -(x * y) && x * -y == -(x * y)) by (nonlinear_arith);
    assert(x >= 0 && y >= 0 ==> x * y >= 0) by (nonlinear_arith);
    assert(x <= 0 && y <= 0 ==> x * y >= 0) by (nonlinear_arith);
    assert(x >= 0 && y <= 0 ==> x * y <= 0) by (nonlinear_arith);
    assert(x <= 0 && y >= 0 ==> x * y <= 0) by (nonlinear_arith);
}

/// A common factor can be left out of a comparison.
pub(crate) proof fn lemma_cancel(a: int, b: int, p: int)
    requires
        p > 0,
        a * p <= b * p,
    ensures
        a <= b,
{
    assert(a <= b) by (nonlinear_arith)
        requires
            p > 0,
            a * p <= b * p,
    ;
}

// ---------------------------------------------------------------------------
// Misses
// ---------------------------------------------------------------------------

/// A sum misses by at most its 2^24th part.
pub(crate) proof fn lemma_add_miss(a: F32, b: F32)
    requires
        a.finite_spec(),
        b.finite_spec(),
        a.add_spec(b).finite_spec(),
    ensures
        size(a.add_spec(b).units() - (a.units() + b.units())) * 0x100_0000 <= size(
            a.units() + b.units(),
        ),
{
    reveal(F32::add_spec);
    lemma_code(0, 0);
    lemma2_to64();
    let n = a.units() + b.units();
    lemma_round_exists(size(n), 1);
    let c = round(size(n), 1);
    if n != 0 {
        assert(c < INF_CODE);
        lemma_miss(size(n), 1, c);
        assert(magnitude(c) * 1 == magnitude(c)) by (nonlinear_arith);
    }
}

/// The number with its sign turned.
pub(crate) proof fn lemma_negated(x: F32)
    requires
        x.finite_spec(),
    ensures
        x.negated().finite_spec(),
        x.negated().units() == -x.units(),
        x.negated().mag() == x.mag(),
{
}

/// A difference misses by at most its 2^24th part.
pub(crate) proof fn lemma_sub_miss(a: F32, b: F32)
    requires
        a.finite_spec(),
        b.finite_spec(),
        a.sub_spec(b).finite_spec(),
    ensures
        size(a.sub_spec(b).units() - (a.units() - b.units())) * 0x100_0000 <= size(
            a.units() - b.units(),
        ),
{
    lemma_negated(b);
    lemma_add_miss(a, b.negated());
}

/// A product misses by at most its 2^24th part and half of the least magnitude.
#[verifier::rlimit(60)]
#[verifier::spinoff_prover]
pub(crate) proof fn lemma_mul_miss(a: F32, b: F32)
    requires
        a.finite_spec(),
        b.finite_spec(),
        a.mul_spec(b).finite_spec(),
    ensures
        ({
            let r = a.mul_spec(b);
            &&& r.neg_spec() == (a.neg_spec() != b.neg_spec())
            &&& size(r.units() * unit() - a.units() * b.units()) * 0x100_0000 <= size(
                a.units() * b.units(),
            ) + 0x80_0000 * unit()
        }),
{
    reveal(F32::mul_spec);
    lemma_value(a);
    lemma_value(b);
    lemma_pow2_pos(149);
    let p = unit();
    let num = a.mag() * b.mag();
    assert(num >= 0) by (nonlinear_arith)
        requires
            num == a.mag() * b.mag(),
            a.mag() >= 0,
            b.mag() >= 0,
    ;
    lemma_round_exists(num, p);
    let c = round(num, p);
    lemma_miss(num, p, c);
    let r = a.mul_spec(b);
    assert(r.code_spec() == c);
    let m = r.mag();
    assert(-m * p == -(m * p)) by (nonlinear_arith);
    let (x, y) = (a.mag(), b.mag());
    assert(-x * -y == x * y && -x * y == -(x * y) && x * -y == -(x * y)) by (nonlinear_arith);
}

/// A quotient misses by at most its 2^24th part and half of the least magnitude.
#[verifier::rlimit(60)]
#[verifier::spinoff_prover]
pub(crate) proof fn lemma_div_miss(a: F32, b: F32)
    requires
        a.finite_spec(),
        b.finite_spec(),
        !b.zero_spec(),
        a.div_spec(b).finite_spec(),
    ensures
        ({
            let r = a.div_spec(b);
            &&& r.neg_spec() == (a.neg_spec() != b.neg_spec())
            &&& size(r.units() * b.units() - a.units() * unit()) * 0x100_0000 <= size(a.units())
                * unit() + 0x80_0000 * size(b.units())
        }),
{
    reveal(F32::div_spec);
    lemma_value(a);
    lemma_value(b);
    lemma_pow2_pos(149);
    let p = unit();
    let (x, y) = (a.mag(), b.mag());
    let num = x * p;
    assert(num >= 0) by (nonlinear_arith)
        requires
            num == x * p,
            x >= 0,
            p > 0,
    ;
    lemma_round_exists(num, y);
    let c = round(num, y);
    lemma_miss(num, y, c);
    let r = a.div_spec(b);
    assert(r.code_spec() == c);
    let m = r.mag();
    assert(-m * -y == m * y && -m * y == -(m * y) && m * -y == -(m * y)) by (nonlinear_arith);
    assert(-x * p == -(x * p)) by (nonlinear_arith);
}

/// An integer below 2^64 misses by at most its 2^24th part.
#[verifier::rlimit(60)]
#[verifier::spinoff_prover]
pub(crate) proof fn lemma_of_int_miss(n: int)
    requires
        0 <= n < 0x1_0000_0000_0000_0000,
    ensures
        of_int(n).finite_spec(),
        !of_int(n).neg_spec(),
        of_int(n).units() >= 0,
        n > 0 ==> of_int(n).units() >= unit(),
        size(of_int(n).units() - n * unit()) * 0x100_0000 <= n * unit(),
{
    reveal(of_int);
    lemma2_to64();
    lemma_unit();
    lemma_pow2_pos(149);
    let p = unit();
    let num = n * p;
    let top = 191 * 0x80_0000int;
    lemma_code(0x80_0000, 190);
    lemma_pow2_adds(23, 190);
    lemma_pow2_adds(64, 149);
    assert(magnitude(top) == 0x1_0000_0000_0000_0000 * p);
    assert(0 <= num <= magnitude(top) * 1) by (nonlinear_arith)
        requires
            num == n * p,
            0 <= n <= 0x1_0000_0000_0000_0000,
            magnitude(top) == 0x1_0000_0000_0000_0000 * p,
            p > 0,
    ;
    lemma_round_at_most(num, 1, top);
    lemma_round_exists(num, 1);
    let c = round(num, 1);
    lemma_miss(num, 1, c);
    lemma_value(of_int(n));
    assert(magnitude(c) * 1 == magnitude(c)) by (nonlinear_arith);
    if n > 0 {
        assert(num >= p) by (nonlinear_arith)
            requires
                num == n * p,
                n >= 1,
                p > 0,
        ;
        lemma_round_at_least(num, ONE_CODE as int);
        if c > ONE_CODE {
            lemma_magnitude_increases(ONE_CODE as int, c);
        }
    }
}

// ---------------------------------------------------------------------------
// Roots
// ---------------------------------------------------------------------------

proof fn lemma_squares(x: int, y: int)
    requires
        0 <= x < y,
    ensures
        x * x < y * y,
{
    assert(x * x < y * y) by (nonlinear_arith)
        requires
            0 <= x < y,
    ;
}

/// Every root rounds to some code.
proof fn lemma_root_below(n: int, c: int)
    requires
        n >= 0,
        0 <= c <= INF_CODE,
        c < INF_CODE ==> n < magnitude(c + 1) * magnitude(c + 1),
    ensures
        exists|r: int| nearest_root(n, r),
    decreases c,
{
    lemma_code(0, 0);
    lemma2_to64();
    let lo = magnitude(c);
    if lo * lo <= n {
        assert((2 * lo) * (2 * lo) == 4 * (lo * lo)) by (nonlinear_arith);
        if c > 0 {
            lemma_magnitude_increases(c - 1, c);
            lemma_squares(magnitude(c - 1) + lo, 2 * lo);
        }
        if c == INF_CODE {
            assert(nearest_root(n, c));
        } else {
            let hi = magnitude(c + 1);
            lemma_magnitude_increases(c, c + 1);
            let mid = lo + hi;
            if 4 * n < mid * mid || (4 * n == mid * mid && c % 2 == 0) {
                assert(nearest_root(n, c));
            } else {
                if c + 1 < INF_CODE {
                    lemma_magnitude_increases(c + 1, c + 2);
                    lemma_squares(2 * hi, hi + magnitude(c + 2));
                    assert((2 * hi) * (2 * hi) == 4 * (hi * hi)) by (nonlinear_arith);
                }
                assert(nearest_root(n, c + 1));
            }
        }
    } else {
        if c == 0 {
            assert(lo * lo == 0) by (nonlinear_arith)
                requires
                    lo == 0,
            ;
        }
        lemma_root_below(n, c - 1);
    }
}

/// A root that was rounded, from the rounding alone.
#[verifier::rlimit(60)]
#[verifier::spinoff_prover]
proof fn lemma_root_miss(n: int, c: int)
    requires
        0x80_0000 <= c < INF_CODE,
        n >= 0,
        nearest_root(n, c),
    ensures
        size(magnitude(c) * magnitude(c) - n) * 0x100_0000 <= 3 * (magnitude(c) * magnitude(c)),
{
    lemma2_to64();
    let m = magnitude(c);
    let (q, e) = lemma_decode(c);
    let p = pow2(e as nat) as int;
    lemma_pow2_pos(e as nat);
    assert(q >= 0x80_0000);
    assert(m == q * p);
    assert(m >= 0x80_0000 * p) by (nonlinear_arith)
        requires
            m == q * p,
            q >= 0x80_0000,
            p > 0,
    ;
    lemma_gap_below(c, q, e);
    let below = magnitude(c - 1);
    let above = magnitude(c + 1);
    assert(above == m + p) by (nonlinear_arith)
        requires
            above == (q + 1) * p,
            m == q * p,
    ;
    let lo = below + m;
    let hi = m + above;
    lemma_magnitude_increases(c - 1, c);
    // 2m - p <= lo and hi == 2m + p, with p * 2^23 <= m.
    let l = 2 * m - p;
    assert(l * l <= lo * lo) by (nonlinear_arith)
        requires
            0 <= l <= lo,
    ;
    let mm = m * m;
    let mp = m * p;
    let pp = p * p;
    assert(l * l == 4 * mm - 4 * mp + pp) by (nonlinear_arith)
        requires
            l == 2 * m - p,
            mm == m * m,
            mp == m * p,
            pp == p * p,
    ;
    assert(hi * hi == 4 * mm + 4 * mp + pp) by (nonlinear_arith)
        requires
            hi == 2 * m + p,
            mm == m * m,
            mp == m * p,
            pp == p * p,
    ;
    assert(mp * 0x80_0000 <= mm && pp * 0x80_0000 <= mp && pp >= 0) by (nonlinear_arith)
        requires
            m >= 0x80_0000 * p,
            p > 0,
            mm == m * m,
            mp == m * p,
            pp == p * p,
    ;
    assert(lo * lo <= 4 * n <= hi * hi);
}

/// The square of a root misses the number by at most three parts in 2^24.
#[verifier::rlimit(60)]
#[verifier::spinoff_prover]
pub(crate) proof fn lemma_sqrt_miss(x: F32)
    requires
        positive(x),
    ensures
        ({
            let r = x.sqrt_spec();
            &&& positive(r)
            &&& !r.neg_spec()
            &&& r.units() >= 0x80_0000
            &&& size(r.units() * r.units() - x.units() * unit()) * 0x100_0000 <= 3 * (r.units()
                * r.units())
        }),
{
    reveal(F32::sqrt_spec);
    lemma2_to64();
    lemma_unit();
    lemma_value(x);
    let p = unit();
    let a = x.mag();
    let n = a * p;
    assert(n >= p) by (nonlinear_arith)
        requires
            n == a * p,
            a >= 1,
            p > 0,
    ;
    lemma_root_below(n, INF_CODE as int);
    let c = round_root(n);
    assert(nearest_root(n, c));
    // The root is a normal number.
    let low = 0x80_0000int;
    lemma_code(0x80_0000, 0);
    assert(magnitude(low) == 0x80_0000);
    lemma_pow2_adds(48, 101);
    lemma_pow2_adds(24, 24);
    lemma_pow2_pos(101);
    assert(p >= 0x1_0000_0000_0000) by (nonlinear_arith)
        requires
            p == 0x1_0000_0000_0000 * pow2(101),
            pow2(101) >= 1,
    ;
    if c < low {
        lemma_magnitude_increases(c, low);
        if c + 1 < low {
            lemma_magnitude_increases(c + 1, low);
        }
        let mid = magnitude(c) + magnitude(c + 1);
        assert(mid * mid <= 0x100_0000 * 0x100_0000) by (nonlinear_arith)
            requires
                0 <= mid <= 0x100_0000,
        ;
    }
    // And it is finite.
    if c == INF_CODE {
        lemma_code(0x80_0000, 254);
        lemma_code(0xff_ffff, 253);
        lemma_pow2_adds(23, 254);
        lemma_pow2_adds(1, 253);
        lemma_pow2_pos(253);
        let top = magnitude(INF_CODE as int);
        let below = magnitude(INF_CODE - 1);
        assert(INF_CODE - 1 == 253 * 0x80_0000int + 0xff_ffff);
        assert(top == 0x100_0000 * pow2(253));
        lemma_magnitude_increases(x.code_spec(), INF_CODE as int);
        assert(below * 2 >= top) by (nonlinear_arith)
            requires
                below == 0xff_ffff * pow2(253),
                top == 0x100_0000 * pow2(253),
                pow2(253) > 0,
        ;
        let mid = below + top;
        // The least value that would round there is above every finite number.
        lemma_pow2_adds(253, 24);
        lemma_pow2_adds(149, 128);
        lemma_pow2_adds(2, 126);
        lemma_pow2_pos(126);
        assert(top == p * pow2(128));
        assert(mid * mid >= top * top) by (nonlinear_arith)
            requires
                mid >= top,
                top >= 0,
        ;
        assert(top * top >= 4 * (top * p)) by (nonlinear_arith)
            requires
                top == p * pow2(128),
                pow2(128) >= 4,
                p > 0,
        ;
        assert(n < top * p) by (nonlinear_arith)
            requires
                n == a * p,
                a < top,
                p > 0,
        ;
        assert(false);
    }
    lemma_root_miss(n, c);
    let r = x.sqrt_spec();
    assert(r.code_spec() == c);
    if c > low {
        lemma_magnitude_increases(low, c);
    }
}

// ---------------------------------------------------------------------------
// Order
// ---------------------------------------------------------------------------

/// Sums grow with what is added.
#[verifier::rlimit(60)]
#[verifier::spinoff_prover]
pub(crate) proof fn lemma_add_ordered(a: F32, b: F32, c: F32)
    requires
        a.finite_spec(),
        b.finite_spec(),
        c.finite_spec(),
        b.units() <= c.units(),
    ensures
        a.add_spec(b).key() <= a.add_spec(c).key(),
        !a.add_spec(b).nan_spec(),
        !a.add_spec(c).nan_spec(),
{
    reveal(F32::add_spec);
    let x = a.units() + b.units();
    let y = a.units() + c.units();
    lemma_round_exists(size(x), 1);
    lemma_round_exists(size(y), 1);
    if 0 < x {
        lemma_round_ordered(x, y, 1);
    } else if y < 0 {
        lemma_round_ordered(-y, -x, 1);
    }
}

/// A sum of nonnegative numbers is not negative.
pub(crate) proof fn lemma_add_sign(a: F32, b: F32)
    requires
        a.finite_spec(),
        b.finite_spec(),
    ensures
        a.units() + b.units() >= 0 ==> a.add_spec(b).key() >= 0,
        a.units() + b.units() <= 0 ==> a.add_spec(b).key() <= 0,
        !a.add_spec(b).nan_spec(),
{
    reveal(F32::add_spec);
    lemma_round_exists(size(a.units() + b.units()), 1);
}

/// Quotients of a positive number fall as the divisor grows.
#[verifier::rlimit(60)]
#[verifier::spinoff_prover]
pub(crate) proof fn lemma_div_falls(a: F32, c: F32, d: F32)
    requires
        a.finite_spec(),
        a.units() >= 0,
        !a.neg_spec(),
        positive(c),
        positive(d),
        c.units() <= d.units(),
    ensures
        !a.div_spec(c).nan_spec(),
        !a.div_spec(d).nan_spec(),
        a.div_spec(d).key() <= a.div_spec(c).key(),
        0 <= a.div_spec(d).key(),
{
    reveal(F32::div_spec);
    lemma_value(a);
    lemma_value(c);
    lemma_value(d);
    lemma_pow2_pos(149);
    let num = a.mag() * pow2(149);
    let (x, y) = (c.mag(), d.mag());
    assert(num >= 0) by (nonlinear_arith)
        requires
            num == a.mag() * pow2(149),
            a.mag() >= 0,
            pow2(149) > 0,
    ;
    lemma_round_exists(num, x);
    lemma_round_exists(num, y);
    // num / y == (num * x) / (x * y) and num / x == (num * y) / (x * y).
    let (u, v) = (num * x, num * y);
    let w = x * y;
    assert(0 <= u <= v && w > 0) by (nonlinear_arith)
        requires
            u == num * x,
            v == num * y,
            w == x * y,
            num >= 0,
            0 < x <= y,
    ;
    lemma_round_scaled(num, y, x);
    lemma_round_scaled(num, x, y);
    assert(y * x == w) by (nonlinear_arith)
        requires
            w == x * y,
    ;
    lemma_round_ordered(u, v, w);
}

/// A common factor does not change what a quotient is rounded to.
pub(crate) proof fn lemma_round_scaled(num: int, den: int, k: int)
    requires
        num >= 0,
        den > 0,
        k > 0,
    ensures
        round(num * k, den * k) == round(num, den),
{
    lemma_round_exists(num, den);
    let c = round(num, den);
    let lo = magnitude(c - 1) + magnitude(c);
    let hi = magnitude(c) + magnitude(c + 1);
    let (n2, d2) = (num * k, den * k);
    assert(d2 > 0) by (nonlinear_arith)
        requires
            d2 == den * k,
            den > 0,
            k > 0,
    ;
    assert((lo * den < 2 * num <==> lo * d2 < 2 * n2) && (lo * den == 2 * num <==> lo * d2 == 2 * n2))
        by (nonlinear_arith)
        requires
            n2 == num * k,
            d2 == den * k,
            k > 0,
    ;
    assert((2 * num < hi * den <==> 2 * n2 < hi * d2) && (2 * num == hi * den <==> 2 * n2 == hi * d2))
        by (nonlinear_arith)
        requires
            n2 == num * k,
            d2 == den * k,
            k > 0,
    ;
    assert(nearest(n2, d2, c));
    lemma_round_unique(n2, d2, c);
}

} // verus!
