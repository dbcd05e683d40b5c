//! Binary32 numbers in software: every operation is correctly rounded, to
//! nearest with ties to even, so results are the same bits on every machine.
use vstd::arithmetic::power2::{
    lemma2_to64, lemma_pow2_adds, lemma_pow2_pos, lemma_pow2_strictly_increases, lemma_pow2_unfold,
    pow2,
};
use vstd::arithmetic::div_mod::lemma_fundamental_div_mod_converse;
use vstd::bits::{lemma_u64_shl_is_mul, lemma_u64_shr_is_div};
use vstd::prelude::*;
use vstd::std_specs::bits::axiom_u64_leading_zeros;

verus! {

/// A binary32 number, held as its bit pattern: one sign bit, eight exponent
/// bits, twenty-three fraction bits.
#[derive(Clone, Copy, Debug)]
pub struct F32 {
    pub bits: u32,
}

impl vstd::std_specs::cmp::PartialEqSpecImpl for F32 {
    open spec fn obeys_eq_spec() -> bool {
        true
    }

    /// Numbers are equal by value: zeros of either sign are equal, and what is no
    /// number equals nothing.
    open spec fn eq_spec(&self, other: &F32) -> bool {
        !self.nan_spec() && !other.nan_spec() && self.key() == other.key()
    }
}

impl PartialEq for F32 {
    fn eq(&self, other: &F32) -> (b: bool) {
        self.same_value(*other)
    }
}

/// Code of infinity: the bit pattern without its sign. Smaller codes are the
/// finite magnitudes in increasing order, larger codes are not-a-number.
pub const INF_CODE: u32 = 0x7f80_0000;

/// The code of magnitude one.
pub const ONE_CODE: u32 = 0x3f80_0000;

/// Weight of the sign bit.
pub const SIGN_BIT: u32 = 0x8000_0000;

/// Number of codes that share one exponent.
pub const BINADE: u32 = 0x80_0000;

/// The magnitude with code `c`, counted in the smallest positive one (2^-149).
pub open spec fn magnitude(c: int) -> int {
    if c / 0x80_0000 == 0 {
        c % 0x80_0000
    } else {
        (0x80_0000 + c % 0x80_0000) * pow2((c / 0x80_0000 - 1) as nat)
    }
}

/// `c` is the code whose magnitude lies nearest to `num / den`; of two equally
/// near the even one. Beyond the midpoint of the largest finite magnitude and
/// the next power of two it is the code of infinity.
pub open spec fn nearest(num: int, den: int, c: int) -> bool {
    &&& 0 <= c <= INF_CODE
    &&& c > 0 ==> {
        ||| (magnitude(c - 1) + magnitude(c)) * den < 2 * num
        ||| (magnitude(c - 1) + magnitude(c)) * den == 2 * num && c % 2 == 0
    }
    &&& c < INF_CODE ==> {
        ||| 2 * num < (magnitude(c) + magnitude(c + 1)) * den
        ||| 2 * num == (magnitude(c) + magnitude(c + 1)) * den && c % 2 == 0
    }
}

/// The code that `num / den` rounds to.
pub open spec fn round(num: int, den: int) -> int {
    choose|c: int| nearest(num, den, c)
}

/// As `nearest`, for the square root of `n`.
pub open spec fn nearest_root(n: int, c: int) -> bool {
    &&& 0 <= c <= INF_CODE
    &&& c > 0 ==> {
        let mid = magnitude(c - 1) + magnitude(c);
        ||| mid * mid < 4 * n
        ||| mid * mid == 4 * n && c % 2 == 0
    }
    &&& c < INF_CODE ==> {
        let mid = magnitude(c) + magnitude(c + 1);
        ||| 4 * n < mid * mid
        ||| 4 * n == mid * mid && c % 2 == 0
    }
}

/// The code that the square root of `n` rounds to.
pub open spec fn round_root(n: int) -> int {
    choose|c: int| nearest_root(n, c)
}

/// The number with the given sign and code.
pub open spec fn make(negative: bool, code: int) -> F32 {
    if negative {
        F32 { bits: (0x8000_0000 + code) as u32 }
    } else {
        F32 { bits: code as u32 }
    }
}

/// The not-a-number that operations return.
pub open spec fn nan() -> F32 {
    F32 { bits: 0x7fc0_0000 }
}

impl F32 {
    /// The sign bit.
    pub open spec fn neg_spec(self) -> bool {
        self.bits >= 0x8000_0000
    }

    /// The bit pattern without the sign.
    pub open spec fn code_spec(self) -> int {
        if self.bits >= 0x8000_0000 {
            self.bits - 0x8000_0000
        } else {
            self.bits as int
        }
    }

    pub open spec fn nan_spec(self) -> bool {
        self.code_spec() > INF_CODE
    }

    pub open spec fn inf_spec(self) -> bool {
        self.code_spec() == INF_CODE
    }

    pub open spec fn finite_spec(self) -> bool {
        self.code_spec() < INF_CODE
    }

    pub open spec fn zero_spec(self) -> bool {
        self.code_spec() == 0
    }

    /// The magnitude, in units of 2^-149.
    pub open spec fn mag(self) -> int {
        magnitude(self.code_spec())
    }

    /// The value, in units of 2^-149.
    pub open spec fn units(self) -> int {
        if self.neg_spec() {
            -self.mag()
        } else {
            self.mag()
        }
    }

    /// Position of a number other than not-a-number in the order of values;
    /// both zeros stand at 0.
    pub open spec fn key(self) -> int {
        if self.neg_spec() {
            -self.code_spec()
        } else {
            self.code_spec()
        }
    }

    /// Position in the total order of all bit patterns.
    pub open spec fn total_key(self) -> int {
        if self.neg_spec() {
            -self.code_spec() - 1
        } else {
            self.code_spec()
        }
    }

    /// The sum.
    #[verifier::opaque]
    pub open spec fn add_spec(self, o: F32) -> F32 {
        if self.nan_spec() || o.nan_spec() {
            nan()
        } else if self.inf_spec() {
            if o.inf_spec() && self.neg_spec() != o.neg_spec() {
                nan()
            } else {
                self
            }
        } else if o.inf_spec() {
            o
        } else {
            let s = self.units() + o.units();
            if s == 0 {
                make(self.neg_spec() && o.neg_spec(), 0)
            } else if s < 0 {
                make(true, round(-s, 1))
            } else {
                make(false, round(s, 1))
            }
        }
    }

    /// The number with its sign turned.
    pub open spec fn negated(self) -> F32 {
        make(!self.neg_spec(), self.code_spec())
    }

    /// The difference.
    pub open spec fn sub_spec(self, o: F32) -> F32 {
        self.add_spec(o.negated())
    }

    /// The product.
    #[verifier::opaque]
    pub open spec fn mul_spec(self, o: F32) -> F32 {
        let negative = self.neg_spec() != o.neg_spec();
        if self.nan_spec() || o.nan_spec() {
            nan()
        } else if self.inf_spec() || o.inf_spec() {
            if self.zero_spec() || o.zero_spec() {
                nan()
            } else {
                make(negative, INF_CODE as int)
            }
        } else {
            make(negative, round(self.mag() * o.mag(), pow2(149) as int))
        }
    }

    /// The quotient.
    #[verifier::opaque]
    pub open spec fn div_spec(self, o: F32) -> F32 {
        let negative = self.neg_spec() != o.neg_spec();
        if self.nan_spec() || o.nan_spec() {
            nan()
        } else if self.inf_spec() {
            if o.inf_spec() {
                nan()
            } else {
                make(negative, INF_CODE as int)
            }
        } else if o.inf_spec() {
            make(negative, 0)
        } else if o.zero_spec() {
            if self.zero_spec() {
                nan()
            } else {
                make(negative, INF_CODE as int)
            }
        } else {
            make(negative, round(self.mag() * pow2(149), o.mag()))
        }
    }

    /// The square root.
    #[verifier::opaque]
    pub open spec fn sqrt_spec(self) -> F32 {
        if self.nan_spec() {
            nan()
        } else if self.zero_spec() {
            self
        } else if self.neg_spec() {
            nan()
        } else if self.inf_spec() {
            self
        } else {
            make(false, round_root(self.mag() * pow2(149)))
        }
    }
}

impl F32 {
    /// Whether `self` is less than `o`; never true of not-a-number.
    pub open spec fn lt_spec(self, o: F32) -> bool {
        !self.nan_spec() && !o.nan_spec() && self.key() < o.key()
    }

    /// The larger number; the other one if one is not-a-number.
    pub open spec fn max_spec(self, o: F32) -> F32 {
        if self.nan_spec() {
            o
        } else if self.lt_spec(o) {
            o
        } else {
            self
        }
    }

    /// The smaller number; the other one if one is not-a-number.
    pub open spec fn min_spec(self, o: F32) -> F32 {
        if self.nan_spec() {
            o
        } else if o.lt_spec(self) {
            o
        } else {
            self
        }
    }

    /// The number held between two bounds.
    pub open spec fn clamp_spec(self, lo: F32, hi: F32) -> F32 {
        if self.lt_spec(lo) {
            lo
        } else if hi.lt_spec(self) {
            hi
        } else {
            self
        }
    }

    /// The number without its sign.
    pub open spec fn abs_spec(self) -> F32 {
        make(false, self.code_spec())
    }

    /// The integer part of a finite magnitude.
    pub open spec fn whole(self) -> int {
        self.mag() / pow2(149) as int
    }

    /// Conversion to an integer type with bounds `lo` and `hi`: towards zero,
    /// stopping at the bounds; not-a-number gives zero.
    pub open spec fn int_spec(self, lo: int, hi: int) -> int {
        if self.nan_spec() {
            0
        } else if self.neg_spec() {
            if self.inf_spec() || -self.whole() < lo {
                lo
            } else {
                -self.whole()
            }
        } else {
            if self.inf_spec() || self.whole() > hi {
                hi
            } else {
                self.whole()
            }
        }
    }

    /// The nearest integer, halves away from zero.
    #[verifier::opaque]
    pub open spec fn round_spec(self) -> F32 {
        if !self.finite_spec() {
            self
        } else {
            let n = (2 * self.mag() + pow2(149)) / pow2(150) as int;
            make(self.neg_spec(), round(n * pow2(149), 1))
        }
    }
}

/// The number nearest to an integer.
#[verifier::opaque]
pub open spec fn of_int(n: int) -> F32 {
    if n < 0 {
        make(true, round(-n * pow2(149), 1))
    } else {
        make(false, round(n * pow2(149), 1))
    }
}

// ---------------------------------------------------------------------------
// Magnitudes and rounding
// ---------------------------------------------------------------------------

/// Significand and exponent give the code and both neighbouring magnitudes.
pub proof fn lemma_code(q: int, e: int)
    requires
        e >= 0,
        0x80_0000 <= q < 0x100_0000 || (e == 0 && 0 <= q < 0x100_0000),
    ensures
        magnitude(e * 0x80_0000 + q) == q * pow2(e as nat),
        magnitude(e * 0x80_0000 + q + 1) == (q + 1) * pow2(e as nat),
{
    lemma2_to64();
    let c = e * 0x80_0000 + q;
    if q < 0x80_0000 {
        assert(q * pow2(0) == q && (q + 1) * pow2(0) == q + 1) by (nonlinear_arith)
            requires
                pow2(0) == 1,
        ;
        if q + 1 == 0x80_0000 {
            assert((c + 1) / 0x80_0000 == 1 && (c + 1) % 0x80_0000 == 0);
        }
    } else {
        assert(c / 0x80_0000 == e + 1 && c % 0x80_0000 == q - 0x80_0000);
        if q + 1 < 0x100_0000 {
            assert((c + 1) / 0x80_0000 == e + 1 && (c + 1) % 0x80_0000 == q + 1 - 0x80_0000);
        } else {
            assert((c + 1) / 0x80_0000 == e + 2 && (c + 1) % 0x80_0000 == 0);
            lemma_pow2_unfold((e + 1) as nat);
            assert(0x80_0000 * pow2((e + 1) as nat) == (q + 1) * pow2(e as nat)) by (nonlinear_arith)
                requires
                    pow2((e + 1) as nat) == 2 * pow2(e as nat),
                    q + 1 == 0x100_0000,
            ;
        }
    }
}

/// Every code comes from a significand and an exponent.
pub proof fn lemma_decode(c: int) -> (r: (int, int))
    requires
        c >= 0,
    ensures
        r.1 >= 0,
        0x80_0000 <= r.0 < 0x100_0000 || (r.1 == 0 && 0 <= r.0 < 0x100_0000),
        c == r.1 * 0x80_0000 + r.0,
        magnitude(c) == r.0 * pow2(r.1 as nat),
        magnitude(c + 1) == (r.0 + 1) * pow2(r.1 as nat),
{
    let e = c / 0x80_0000;
    let r = if e == 0 {
        (c % 0x80_0000, 0int)
    } else {
        (0x80_0000 + c % 0x80_0000, e - 1)
    };
    lemma_code(r.0, r.1);
    r
}

/// Magnitudes grow with their codes.
pub proof fn lemma_magnitude_increases(a: int, b: int)
    requires
        0 <= a < b,
    ensures
        0 <= magnitude(a) < magnitude(b),
    decreases b - a,
{
    let (q, e) = lemma_decode(a);
    lemma_pow2_pos(e as nat);
    assert(0 <= q * pow2(e as nat) < (q + 1) * pow2(e as nat)) by (nonlinear_arith)
        requires
            pow2(e as nat) > 0,
            q >= 0,
    ;
    if a + 1 < b {
        lemma_magnitude_increases(a + 1, b);
    }
}

proof fn lemma_nearest_step(num: int, den: int, a: int, b: int)
    requires
        den > 0,
        nearest(num, den, a),
        a < b,
    ensures
        !nearest(num, den, b),
{
    lemma_magnitude_increases(a, a + 1);
    lemma_magnitude_increases(b - 1, b);
    let lo = magnitude(a) + magnitude(a + 1);
    let hi = magnitude(b - 1) + magnitude(b);
    if a + 1 < b {
        lemma_magnitude_increases(a, b - 1);
        lemma_magnitude_increases(a + 1, b);
        assert(lo * den < hi * den) by (nonlinear_arith)
            requires
                lo < hi,
                den > 0,
        ;
    }
}

/// Rounding has one result: whatever is nearest is what `round` names.
pub proof fn lemma_round_unique(num: int, den: int, c: int)
    requires
        den > 0,
        nearest(num, den, c),
    ensures
        round(num, den) == c,
{
    let r = round(num, den);
    if r < c {
        lemma_nearest_step(num, den, r, c);
    } else if c < r {
        lemma_nearest_step(num, den, c, r);
    }
}

proof fn lemma_square_increases(x: int, y: int)
    requires
        0 <= x < y,
    ensures
        x * x < y * y,
{
    assert(x * x < y * y) by (nonlinear_arith)
        requires
            0 <= x < y,
    ;
}

proof fn lemma_nearest_root_step(n: int, a: int, b: int)
    requires
        nearest_root(n, a),
        a < b,
    ensures
        !nearest_root(n, b),
{
    lemma_magnitude_increases(a, a + 1);
    lemma_magnitude_increases(b - 1, b);
    let lo = magnitude(a) + magnitude(a + 1);
    let hi = magnitude(b - 1) + magnitude(b);
    if a + 1 < b {
        lemma_magnitude_increases(a, b - 1);
        lemma_magnitude_increases(a + 1, b);
        lemma_square_increases(lo, hi);
    }
}

/// The rounded square root is unique too.
pub proof fn lemma_round_root_unique(n: int, c: int)
    requires
        nearest_root(n, c),
    ensures
        round_root(n) == c,
{
    let r = round_root(n);
    if r < c {
        lemma_nearest_root_step(n, r, c);
    } else if c < r {
        lemma_nearest_root_step(n, c, r);
    }
}

proof fn lemma_nearest_below(num: int, den: int, c: int)
    requires
        den > 0,
        num >= 0,
        0 <= c <= INF_CODE,
        c < INF_CODE ==> num < magnitude(c + 1) * den,
    ensures
        exists|r: int| nearest(num, den, r),
    decreases c,
{
    lemma_code(0, 0);
    lemma2_to64();
    if magnitude(c) * den <= num {
        let lo = magnitude(c);
        if c == INF_CODE {
            lemma_magnitude_increases(c - 1, c);
            let mid = magnitude(c - 1) + lo;
            assert(mid * den < 2 * num) by (nonlinear_arith)
                requires
                    lo * den <= num,
                    mid < 2 * lo,
                    den > 0,
            ;
            assert(nearest(num, den, c));
        } else {
            let hi = magnitude(c + 1);
            lemma_magnitude_increases(c, c + 1);
            let mid = lo + hi;
            if 2 * num < mid * den || (2 * num == mid * den && c % 2 == 0) {
                if c > 0 {
                    lemma_magnitude_increases(c - 1, c);
                    let below = magnitude(c - 1) + lo;
                    assert(below * den < 2 * num) by (nonlinear_arith)
                        requires
                            lo * den <= num,
                            below < 2 * lo,
                            den > 0,
                    ;
                }
                assert(nearest(num, den, c));
            } else {
                if c + 1 < INF_CODE {
                    lemma_magnitude_increases(c + 1, c + 2);
                    let above = hi + magnitude(c + 2);
                    assert(2 * num < above * den) by (nonlinear_arith)
                        requires
                            num < hi * den,
                            above > 2 * hi,
                            den > 0,
                    ;
                }
                assert(nearest(num, den, c + 1));
            }
        }
    } else {
        if c == 0 {
            assert(magnitude(0) * den == 0) by (nonlinear_arith)
                requires
                    magnitude(0) == 0,
            ;
        }
        lemma_nearest_below(num, den, c - 1);
    }
}

/// Every quotient rounds to some code, at most that of infinity.
pub proof fn lemma_round_exists(num: int, den: int)
    requires
        den > 0,
        num >= 0,
    ensures
        nearest(num, den, round(num, den)),
        0 <= round(num, den) <= INF_CODE,
{
    lemma_nearest_below(num, den, INF_CODE as int);
}

/// A quotient between two neighbouring magnitudes rounds up exactly if it lies
/// above their midpoint, or on it with the lower significand odd.
proof fn lemma_pick(num: int, den: int, q: int, e: int, up: bool)
    requires
        den > 0,
        e >= 0,
        0x80_0000 <= q < 0x100_0000 || (e == 0 && 0 <= q < 0x100_0000),
        q * pow2(e as nat) * den <= num,
        num < (q + 1) * pow2(e as nat) * den,
        e * 0x80_0000 + q < INF_CODE,
        up <==> ((2 * q + 1) * pow2(e as nat) * den < 2 * num || ((2 * q + 1) * pow2(e as nat) * den
            == 2 * num && q % 2 == 1)),
    ensures
        nearest(num, den, e * 0x80_0000 + q + if up { 1int } else { 0int }),
{
    lemma_code(q, e);
    let c = e * 0x80_0000 + q;
    let p = pow2(e as nat) as int;
    assert(c % 2 == q % 2);
    assert((magnitude(c) + magnitude(c + 1)) * den == (2 * q + 1) * p * den) by (nonlinear_arith)
        requires
            magnitude(c) == q * p,
            magnitude(c + 1) == (q + 1) * p,
    ;
    if up {
        if c + 1 < INF_CODE {
            lemma_magnitude_increases(c + 1, c + 2);
            let mid = magnitude(c + 1) + magnitude(c + 2);
            assert(2 * num < mid * den) by (nonlinear_arith)
                requires
                    num < (q + 1) * p * den,
                    magnitude(c + 1) == (q + 1) * p,
                    mid > 2 * magnitude(c + 1),
                    den > 0,
            ;
        }
    } else {
        if c > 0 {
            lemma_magnitude_increases(c - 1, c);
            let mid = magnitude(c - 1) + magnitude(c);
            assert(mid * den < 2 * num) by (nonlinear_arith)
                requires
                    q * p * den <= num,
                    magnitude(c) == q * p,
                    mid < 2 * magnitude(c),
                    den > 0,
            ;
        }
    }
}

/// A quotient that reaches the code of infinity rounds to it.
pub(crate) proof fn lemma_pick_overflow(num: int, den: int, q: int, e: int)
    requires
        den > 0,
        e >= 0,
        0x80_0000 <= q < 0x100_0000 || (e == 0 && 0 <= q < 0x100_0000),
        q * pow2(e as nat) * den <= num,
        e * 0x80_0000 + q >= INF_CODE,
    ensures
        nearest(num, den, INF_CODE as int),
{
    lemma_code(q, e);
    let c = e * 0x80_0000 + q;
    let p = pow2(e as nat) as int;
    let inf = INF_CODE as int;
    lemma_magnitude_increases(inf - 1, inf);
    if inf < c {
        lemma_magnitude_increases(inf, c);
    }
    let mid = magnitude(inf - 1) + magnitude(inf);
    assert(mid * den < 2 * num) by (nonlinear_arith)
        requires
            q * p * den <= num,
            magnitude(c) == q * p,
            mid < 2 * magnitude(c),
            den > 0,
    ;
}


// ---------------------------------------------------------------------------
// Exact results to rounded numbers
// ---------------------------------------------------------------------------

/// Number of significant bits.
fn bit_len(m: u64) -> (l: u32)
    requires
        0 < m < 0x4000_0000_0000_0000,
    ensures
        1 <= l <= 62,
        pow2((l - 1) as nat) <= m < pow2(l as nat),
{
    let z: u32 = m.leading_zeros();
    proof {
        axiom_u64_leading_zeros(m);
        assert(m < 0x4000_0000_0000_0000 ==> (m >> 63u64) & 1u64 == 0u64 && (m >> 62u64) & 1u64
            == 0u64) by (bit_vector);
        assert(z >= 2);
        let l = (64 - z) as u64;
        assert(m >> l == 0);
        lemma_u64_shr_is_div(m, l);
        lemma_pow2_pos(l as nat);
        let k = (63 - z) as u64;
        lemma_u64_shr_is_div(m, k);
        lemma_pow2_pos(k as nat);
        assert((m >> k) & 1u64 != 0u64);
        assert(0u64 & 1u64 == 0u64) by (bit_vector);
        let pl = pow2(l as nat);
        let pk = pow2(k as nat);
        assert(m < pl) by (nonlinear_arith)
            requires
                m as nat / pl == 0,
                pl > 0,
        ;
        assert(m >= pk) by (nonlinear_arith)
            requires
                m as nat / pk != 0,
                pk > 0,
        ;
    }
    64 - z
}

/// The number with the given sign and code.
fn pack(negative: bool, code: u32) -> (r: F32)
    requires
        code <= 0x7fff_ffff,
    ensures
        r == make(negative, code as int),
{
    if negative {
        F32 { bits: SIGN_BIT + code }
    } else {
        F32 { bits: code }
    }
}

/// `num / den` is `m * 2^e`, or lies strictly between that and
/// `(m + 1) * 2^e` if bits were dropped.
pub open spec fn scaled(num: int, den: int, m: int, e: int, dropped: bool) -> bool {
    let p = pow2((if e >= 0 { e } else { 0 }) as nat);
    let n = pow2((if e >= 0 { 0 } else { -e }) as nat);
    if dropped {
        m * p * den < num * n && num * n < (m + 1) * p * den
    } else {
        num * n == m * p * den
    }
}

proof fn lemma_cancel(a: int, b: int, n: int)
    requires
        n > 0,
    ensures
        a * n < b * n <==> a < b,
        a * n == b * n <==> a == b,
{
    assert(a * n < b * n <==> a < b) by (nonlinear_arith)
        requires
            n > 0,
    ;
    assert(a * n == b * n <==> a == b) by (nonlinear_arith)
        requires
            n > 0,
    ;
}

/// What dropping `k` low bits of the significand says of the quotient.
proof fn lemma_shift(num: int, den: int, m: int, e: int, dropped: bool, k: int, q: int, rem: int)
    requires
        den > 0,
        scaled(num, den, m, e, dropped),
        k > 0,
        e + k >= 0,
        q >= 0,
        m == q * pow2(k as nat) + rem,
        0 <= rem < pow2(k as nat),
    ensures
        q * pow2((e + k) as nat) * den <= num,
        num < (q + 1) * pow2((e + k) as nat) * den,
        (2 * q + 1) * pow2((e + k) as nat) * den < 2 * num <==> (rem > pow2((k - 1) as nat) || (rem
            == pow2((k - 1) as nat) && dropped)),
        (2 * q + 1) * pow2((e + k) as nat) * den == 2 * num <==> (rem == pow2((k - 1) as nat)
            && !dropped),
{
    let pe = (if e >= 0 { e } else { 0 }) as nat;
    let ne = (if e >= 0 { 0 } else { -e }) as nat;
    let p = pow2(pe) as int;
    let n = pow2(ne) as int;
    let t = pow2(k as nat) as int;
    let h = pow2((k - 1) as nat) as int;
    let g = pow2((e + k) as nat) as int;
    lemma_pow2_adds(k as nat, pe);
    lemma_pow2_adds(ne, (e + k) as nat);
    assert(k as nat + pe == ne + (e + k) as nat);
    assert(t * p == n * g);
    lemma_pow2_pos(pe);
    lemma_pow2_pos(ne);
    lemma_pow2_pos((e + k) as nat);
    lemma_pow2_unfold(k as nat);
    assert(t == 2 * h);
    let a = p * den;
    let d = g * den;
    let x = num * n;
    assert(a > 0) by (nonlinear_arith)
        requires
            a == p * den,
            p > 0,
            den > 0,
    ;
    assert(t * a == d * n) by (nonlinear_arith)
        requires
            t * p == n * g,
            a == p * den,
            d == g * den,
    ;
    assert(m * p * den == m * a && (m + 1) * p * den == (m + 1) * a) by (nonlinear_arith)
        requires
            a == p * den,
    ;
    assert(m * a <= x && x < (m + 1) * a) by {
        assert(m * a < (m + 1) * a) by (nonlinear_arith)
            requires
                a > 0,
        ;
    }
    let qt = q * t;
    // The quotient lies in the cell of `q`.
    assert(qt * a <= m * a) by (nonlinear_arith)
        requires
            qt <= m,
            a > 0,
    ;
    assert((m + 1) * a <= (qt + t) * a) by (nonlinear_arith)
        requires
            m + 1 <= qt + t,
            a > 0,
    ;
    assert(qt * a == q * d * n && (qt + t) * a == (q + 1) * d * n) by (nonlinear_arith)
        requires
            qt == q * t,
            t * a == d * n,
    ;
    lemma_cancel(num, q * d, n);
    lemma_cancel(num, (q + 1) * d, n);
    assert(q * g * den == q * d && (q + 1) * g * den == (q + 1) * d) by (nonlinear_arith)
        requires
            d == g * den,
    ;
    // The midpoint of the cell.
    let mid = qt + h;
    assert(2 * (mid * a) == (2 * q + 1) * d * n) by (nonlinear_arith)
        requires
            mid == qt + h,
            qt == q * t,
            t == 2 * h,
            t * a == d * n,
    ;
    assert(2 * x == (2 * num) * n) by (nonlinear_arith)
        requires
            x == num * n,
    ;
    lemma_cancel((2 * q + 1) * d, 2 * num, n);
    assert((2 * q + 1) * g * den == (2 * q + 1) * d) by (nonlinear_arith)
        requires
            d == g * den,
    ;
    if rem > h {
        assert((mid + 1) * a <= m * a) by (nonlinear_arith)
            requires
                mid + 1 <= m,
                a > 0,
        ;
        assert(mid * a < (mid + 1) * a) by (nonlinear_arith)
            requires
                a > 0,
        ;
        assert(mid * a < x);
    } else if rem == h {
        assert(mid == m);
        if dropped {
            assert(mid * a < x);
        } else {
            assert(mid * a == x);
        }
    } else {
        assert((m + 1) * a <= mid * a) by (nonlinear_arith)
            requires
                m + 1 <= mid,
                a > 0,
        ;
        assert(x < mid * a);
    }
}

/// A significand left of the binary point is exact.
proof fn lemma_exact(num: int, den: int, m: int, e: int, j: int, q: int)
    requires
        den > 0,
        scaled(num, den, m, e, false),
        j >= 0,
        e - j >= 0,
        q == m * pow2(j as nat),
    ensures
        num == q * pow2((e - j) as nat) * den,
        q * pow2((e - j) as nat) * den < (q + 1) * pow2((e - j) as nat) * den,
        (2 * q + 1) * pow2((e - j) as nat) * den > 2 * num,
{
    lemma2_to64();
    lemma_pow2_adds(j as nat, (e - j) as nat);
    assert(j as nat + (e - j) as nat == e as nat);
    lemma_pow2_pos((e - j) as nat);
    let g = pow2((e - j) as nat) as int;
    let p = pow2(e as nat) as int;
    let t = pow2(j as nat) as int;
    assert(p == t * g);
    assert(num * pow2(0) == num) by (nonlinear_arith)
        requires
            pow2(0) == 1,
    ;
    assert(m * p * den == q * g * den) by (nonlinear_arith)
        requires
            p == t * g,
            q == m * t,
    ;
    assert(q * g * den < (q + 1) * g * den && 2 * (q * g * den) < (2 * q + 1) * g * den)
        by (nonlinear_arith)
        requires
            g > 0,
            den > 0,
    ;
}

/// A quotient below half of the smallest positive magnitude rounds to zero.
proof fn lemma_tiny(num: int, den: int, m: int, e: int, dropped: bool)
    requires
        den > 0,
        scaled(num, den, m, e, dropped),
        0 <= m < 0x4000_0000_0000_0000,
        e <= -64,
    ensures
        nearest(num, den, 0),
{
    lemma2_to64();
    lemma_code(0, 0);
    let n = pow2((-e) as nat) as int;
    if e < -64 {
        lemma_pow2_strictly_increases(64, (-e) as nat);
    }
    assert(n >= 0x1_0000_0000_0000_0000);
    let x = num * n;
    assert(m * 1 * den == m * den && (m + 1) * 1 * den == (m + 1) * den);
    assert(x < (m + 1) * den) by {
        assert(m * den < (m + 1) * den) by (nonlinear_arith)
            requires
                den > 0,
        ;
    }
    assert(2 * ((m + 1) * den) < den * n) by (nonlinear_arith)
        requires
            2 * (m + 1) < n,
            den > 0,
    ;
    assert(2 * x == (2 * num) * n) by (nonlinear_arith)
        requires
            x == num * n,
    ;
    lemma_cancel(2 * num, den, n);
}

/// The number nearest to `num / den`, whose value the significand and exponent
/// give up to dropped low bits.
pub(crate) fn round_pack(
    negative: bool,
    m: u64,
    e: i32,
    dropped: bool,
    num: Ghost<int>,
    den: Ghost<int>,
) -> (r: F32)
    requires
        den@ > 0,
        scaled(num@, den@, m as int, e as int, dropped),
        0 < m < 0x4000_0000_0000_0000,
        dropped ==> m >= 0x200_0000,
        -1000 <= e <= 1000,
        e + 40 <= 480,
    ensures
        r == make(negative, round(num@, den@)),
{
    let l: u32 = bit_len(m);
    proof {
        lemma2_to64();
        if l <= 24 {
            if l < 24 {
                lemma_pow2_strictly_increases(l as nat, 24);
            }
        } else {
            if l > 25 {
                lemma_pow2_strictly_increases(24, (l - 1) as nat);
            }
        }
        if dropped && l < 26 {
            if l < 25 {
                lemma_pow2_strictly_increases(l as nat, 25);
            }
        }
    }
    let by_len: i32 = l as i32 - 24;
    let by_exp: i32 = 0 - e;
    let k: i32 = if by_len >= by_exp { by_len } else { by_exp };
    if k <= 0 {
        let j: i32 = 0 - k;
        let exp: i32 = e + k;
        proof {
            // The shifted significand has at most 24 bits.
            lemma_pow2_adds(l as nat, j as nat);
            lemma_pow2_adds((l - 1) as nat, j as nat);
            lemma_pow2_pos(j as nat);
            assert(m * pow2(j as nat) < pow2(l as nat) * pow2(j as nat)) by (nonlinear_arith)
                requires
                    m < pow2(l as nat),
                    pow2(j as nat) > 0,
            ;
            assert(m * pow2(j as nat) >= pow2((l - 1) as nat) * pow2(j as nat)) by (nonlinear_arith)
                requires
                    m >= pow2((l - 1) as nat),
                    pow2(j as nat) > 0,
            ;
            if l + j < 24 {
                lemma_pow2_strictly_increases((l + j) as nat, 24);
            }
            lemma_u64_shl_is_mul(m, j as u64);
        }
        let q: u64 = m << (j as u64);
        proof {
            assert(q < 0x100_0000);
            assert(q >= 0x80_0000 || exp == 0) by {
                if exp != 0 {
                    assert(k == by_len);
                    assert((l - 1) as nat + j as nat == 23);
                }
            }
            lemma_exact(num@, den@, m as int, e as int, j as int, q as int);
        }
        let code: u32 = (exp as u32) * BINADE + q as u32;
        if code >= INF_CODE {
            proof {
                lemma_pick_overflow(num@, den@, q as int, exp as int);
                lemma_round_unique(num@, den@, INF_CODE as int);
            }
            return pack(negative, INF_CODE);
        }
        proof {
            lemma_pick(num@, den@, q as int, exp as int, false);
            lemma_round_unique(num@, den@, code as int);
        }
        pack(negative, code)
    } else if k >= 64 {
        proof {
            lemma_tiny(num@, den@, m as int, e as int, dropped);
            lemma_round_unique(num@, den@, 0);
        }
        pack(negative, 0)
    } else {
        let exp: i32 = e + k;
        let q: u64 = m >> (k as u64);
        proof {
            lemma_u64_shr_is_div(m, k as u64);
            lemma_pow2_pos(k as nat);
            lemma_pow2_pos((k - 1) as nat);
            lemma_pow2_unfold(k as nat);
            lemma_pow2_strictly_increases((k - 1) as nat, 64);
            let t = pow2(k as nat) as int;
            assert(q * t <= m && m < q * t + t) by (nonlinear_arith)
                requires
                    q == m as int / t,
                    t > 0,
            ;
            lemma_u64_shl_is_mul(q, k as u64);
            assert(1 * pow2((k - 1) as nat) == pow2((k - 1) as nat)) by (nonlinear_arith);
            lemma_u64_shl_is_mul(1, (k - 1) as u64);
        }
        let back: u64 = q << (k as u64);
        let rem: u64 = m - back;
        let half: u64 = 1u64 << ((k - 1) as u64);
        proof {
            // The kept significand has at most 24 bits, and 24 unless the
            // exponent is the smallest.
            let t = pow2(k as nat) as int;
            lemma_pow2_adds(24, k as nat);
            if l < 24 + k {
                lemma_pow2_strictly_increases(l as nat, (24 + k) as nat);
            }
            assert(q < 0x100_0000) by (nonlinear_arith)
                requires
                    q * t <= m,
                    m < 0x100_0000 * t,
                    t > 0,
            ;
            if exp != 0 {
                assert(k == by_len);
                lemma_pow2_adds(23, k as nat);
                assert(23 + k as nat == (l - 1) as nat);
                assert(q >= 0x80_0000) by (nonlinear_arith)
                    requires
                        m < q * t + t,
                        m >= 0x80_0000 * t,
                        t > 0,
                ;
            }
            lemma_shift(
                num@,
                den@,
                m as int,
                e as int,
                dropped,
                k as int,
                q as int,
                rem as int,
            );
        }
        let code: u32 = (exp as u32) * BINADE + q as u32;
        if code >= INF_CODE {
            proof {
                lemma_pick_overflow(num@, den@, q as int, exp as int);
                lemma_round_unique(num@, den@, INF_CODE as int);
            }
            return pack(negative, INF_CODE);
        }
        let up: bool = rem > half || (rem == half && (dropped || q % 2 == 1));
        proof {
            lemma_pick(num@, den@, q as int, exp as int, up);
            lemma_round_unique(num@, den@, code + if up { 1int } else { 0int });
        }
        if up {
            pack(negative, code + 1)
        } else {
            pack(negative, code)
        }
    }
}


// ---------------------------------------------------------------------------
// Arithmetic
// ---------------------------------------------------------------------------

/// A much smaller addend leaves the nearest code where it is.
proof fn lemma_absorb(num: int, s: int, e: int, small: int)
    requires
        0x80_0000 <= s < 0x100_0000,
        e >= 37,
        s * pow2(e as nat) - small <= num <= s * pow2(e as nat) + small,
        0 <= small < pow2((e - 13) as nat),
        e * 0x80_0000 + s < INF_CODE,
    ensures
        nearest(num, 1, e * 0x80_0000 + s),
{
    lemma_code(s, e);
    let c = e * 0x80_0000 + s;
    let p = pow2(e as nat) as int;
    let h = pow2((e - 1) as nat) as int;
    lemma_pow2_unfold(e as nat);
    lemma_pow2_pos((e - 13) as nat);
    lemma_pow2_adds(2, (e - 13) as nat);
    lemma2_to64();
    lemma_pow2_strictly_increases((e - 11) as nat, (e - 1) as nat);
    assert(4 * small < h);
    assert((s + 1) * p == s * p + p) by (nonlinear_arith);
    if s > 0x80_0000 {
        lemma_code(s - 1, e);
        assert((s - 1) * p == s * p - p) by (nonlinear_arith);
    } else {
        lemma_code(0xff_ffff, e - 1);
        assert(c - 1 == (e - 1) * 0x80_0000 + 0xff_ffff);
        assert(s * p == 0xff_ffff * h + h) by (nonlinear_arith)
            requires
                p == 2 * h,
                s == 0x80_0000,
        ;
    }
}

/// The whole significand and the exponent of an exact product of two numbers.
proof fn lemma_product(sa: int, ea: nat, sb: int, eb: nat)
    ensures
        (sa * pow2(ea)) * (sb * pow2(eb)) == (sa * sb) * pow2(ea + eb),
{
    lemma_pow2_adds(ea, eb);
    let x = pow2(ea) as int;
    let y = pow2(eb) as int;
    assert((sa * x) * (sb * y) == (sa * sb) * (x * y)) by (nonlinear_arith);
}

impl F32 {
    /// The number with the given bit pattern.
    pub fn from_bits(bits: u32) -> (r: F32)
        ensures
            r.bits == bits,
    {
        F32 { bits }
    }

    /// The bit pattern.
    pub fn to_bits(self) -> (b: u32)
        ensures
            b == self.bits,
    {
        self.bits
    }

    /// Whether the sign bit is set.
    pub fn is_sign_negative(self) -> (b: bool)
        ensures
            b == self.neg_spec(),
    {
        self.bits >= SIGN_BIT
    }

    /// The bit pattern without the sign.
    pub fn code(self) -> (c: u32)
        ensures
            c == self.code_spec(),
            c <= 0x7fff_ffff,
    {
        if self.bits >= SIGN_BIT {
            self.bits - SIGN_BIT
        } else {
            self.bits
        }
    }

    pub fn is_nan(self) -> (b: bool)
        ensures
            b == self.nan_spec(),
    {
        self.code() > INF_CODE
    }

    pub fn is_infinite(self) -> (b: bool)
        ensures
            b == self.inf_spec(),
    {
        self.code() == INF_CODE
    }

    pub fn is_finite(self) -> (b: bool)
        ensures
            b == self.finite_spec(),
    {
        self.code() < INF_CODE
    }

    /// Significand and exponent of a finite number.
    fn parts(self) -> (r: (u64, i32))
        requires
            self.finite_spec(),
        ensures
            0 <= r.1 <= 253,
            0x80_0000 <= r.0 < 0x100_0000 || (r.1 == 0 && 0 <= r.0 < 0x100_0000),
            self.mag() == r.0 * pow2(r.1 as nat),
            self.code_spec() == r.1 * 0x80_0000 + r.0,
    {
        let c: u32 = self.code();
        let e: u32 = c / BINADE;
        let m: u32 = c % BINADE;
        let r: (u64, i32) = if e == 0 {
            (m as u64, 0)
        } else {
            ((BINADE + m) as u64, e as i32 - 1)
        };
        proof {
            lemma_code(r.0 as int, r.1 as int);
        }
        r
    }

    /// `self + o` for finite numbers with the exponents in order.
    fn add_ordered(self, o: F32, a: (u64, i32), b: (u64, i32)) -> (r: F32)
        requires
            self.finite_spec(),
            o.finite_spec(),
            self.mag() == a.0 * pow2(a.1 as nat),
            o.mag() == b.0 * pow2(b.1 as nat),
            0 <= b.1 <= a.1 <= 253,
            0x80_0000 <= a.0 < 0x100_0000 || (a.1 == 0 && a.0 < 0x100_0000),
            b.0 < 0x100_0000,
            self.code_spec() == a.1 * 0x80_0000 + a.0,
        ensures
            r == self.add_spec(o),
    {
        reveal(F32::add_spec);
        let d: i32 = a.1 - b.1;
        let na: bool = self.is_sign_negative();
        let nb: bool = o.is_sign_negative();
        if d <= 36 {
            proof {
                lemma2_to64();
                lemma_pow2_strictly_increases(d as nat, 37);
                lemma_pow2_adds(32, 5);
                assert(a.0 * pow2(d as nat) < 0x100_0000 * 0x20_0000_0000) by (nonlinear_arith)
                    requires
                        a.0 < 0x100_0000,
                        pow2(d as nat) < 0x20_0000_0000,
                ;
                lemma_u64_shl_is_mul(a.0, d as u64);
                lemma_pow2_adds(d as nat, b.1 as nat);
                let g = pow2(b.1 as nat) as int;
                let t = pow2(d as nat) as int;
                assert(a.0 * pow2(a.1 as nat) == (a.0 * t) * g) by (nonlinear_arith)
                    requires
                        pow2(a.1 as nat) == t * g,
                ;
                lemma_pow2_pos(b.1 as nat);
            }
            let hi: u64 = a.0 << (d as u64);
            let lo: u64 = b.0;
            let ghost g = pow2(b.1 as nat) as int;
            let m: u64 = if na == nb {
                hi + lo
            } else if hi >= lo {
                hi - lo
            } else {
                lo - hi
            };
            let negative: bool = if na == nb || hi >= lo {
                na
            } else {
                nb
            };
            let ghost s = self.units() + o.units();
            assert(s == if negative { -(m * g) } else { m * g }) by (nonlinear_arith)
                requires
                    self.mag() == hi * g,
                    o.mag() == lo * g,
                    s == self.units() + o.units(),
                    self.units() == if na { -self.mag() } else { self.mag() },
                    o.units() == if nb { -o.mag() } else { o.mag() },
                    m == if na == nb {
                        hi + lo
                    } else if hi >= lo {
                        hi - lo
                    } else {
                        lo - hi
                    },
                    negative == if na == nb || hi >= lo {
                        na
                    } else {
                        nb
                    },
            ;
            if m == 0 {
                assert(m * g == 0) by (nonlinear_arith)
                    requires
                        m == 0,
                ;
                pack(na && nb, 0)
            } else {
                assert(m * g > 0) by (nonlinear_arith)
                    requires
                        m > 0,
                        g > 0,
                ;
                assert(scaled(m * g, 1, m as int, b.1 as int, false)) by {
                    assert((m * g) * pow2(0) == m * g * 1) by (nonlinear_arith)
                        requires
                            pow2(0) == 1,
                    ;
                }
                round_pack(negative, m, b.1, false, Ghost(m * g), Ghost(1))
            }
        } else {
            proof {
                let small = o.mag();
                lemma2_to64();
                lemma_pow2_pos(b.1 as nat);
                lemma_pow2_adds(24, b.1 as nat);
                assert(0 <= small < pow2((24 + b.1) as nat)) by (nonlinear_arith)
                    requires
                        small == b.0 * pow2(b.1 as nat),
                        b.0 < 0x100_0000,
                        pow2((24 + b.1) as nat) == 0x100_0000 * pow2(b.1 as nat),
                        pow2(b.1 as nat) > 0,
                ;
                if 24 + b.1 < a.1 - 13 {
                    lemma_pow2_strictly_increases((24 + b.1) as nat, (a.1 - 13) as nat);
                }
                let s = self.units() + o.units();
                let num = if s < 0 { -s } else { s };
                // The larger operand outweighs the smaller one.
                lemma_pow2_strictly_increases((a.1 - 13) as nat, a.1 as nat);
                assert(self.mag() >= pow2(a.1 as nat)) by (nonlinear_arith)
                    requires
                        self.mag() == a.0 * pow2(a.1 as nat),
                        a.0 >= 1,
                ;
                lemma_absorb(num, a.0 as int, a.1 as int, small);
                lemma_round_unique(num, 1, self.code_spec());
            }
            self
        }
    }

    /// The sum.
    pub fn add(self, o: F32) -> (r: F32)
        ensures
            r == self.add_spec(o),
    {
        if self.is_nan() || o.is_nan() {
            proof {
                reveal(F32::add_spec);
            }
            return F32 { bits: 0x7fc0_0000 };
        }
        if self.is_infinite() {
            proof {
                reveal(F32::add_spec);
            }
            if o.is_infinite() && self.is_sign_negative() != o.is_sign_negative() {
                return F32 { bits: 0x7fc0_0000 };
            }
            return self;
        }
        if o.is_infinite() {
            proof {
                reveal(F32::add_spec);
            }
            return o;
        }
        let a: (u64, i32) = self.parts();
        let b: (u64, i32) = o.parts();
        if a.1 >= b.1 {
            self.add_ordered(o, a, b)
        } else {
            proof {
                lemma_add_commutes(self, o);
            }
            o.add_ordered(self, b, a)
        }
    }

    /// The number with its sign turned.
    pub fn neg(self) -> (r: F32)
        ensures
            r == self.negated(),
    {
        pack(!self.is_sign_negative(), self.code())
    }

    /// The difference.
    pub fn sub(self, o: F32) -> (r: F32)
        ensures
            r == self.sub_spec(o),
    {
        self.add(o.neg())
    }

    /// The product.
    pub fn mul(self, o: F32) -> (r: F32)
        ensures
            r == self.mul_spec(o),
    {
        reveal(F32::mul_spec);
        let negative: bool = self.is_sign_negative() != o.is_sign_negative();
        if self.is_nan() || o.is_nan() {
            return F32 { bits: 0x7fc0_0000 };
        }
        if self.is_infinite() || o.is_infinite() {
            if self.code() == 0 || o.code() == 0 {
                return F32 { bits: 0x7fc0_0000 };
            }
            return pack(negative, INF_CODE);
        }
        let a: (u64, i32) = self.parts();
        let b: (u64, i32) = o.parts();
        let ghost num = self.mag() * o.mag();
        let ghost den = pow2(149) as int;
        proof {
            lemma_pow2_pos(149);
            lemma_product(a.0 as int, a.1 as nat, b.0 as int, b.1 as nat);
            assert(a.0 * b.0 < 0x1_0000_0000_0000) by (nonlinear_arith)
                requires
                    a.0 < 0x100_0000,
                    b.0 < 0x100_0000,
            ;
        }
        let m: u64 = a.0 * b.0;
        if m == 0 {
            proof {
                assert(num == 0) by (nonlinear_arith)
                    requires
                        num == m * pow2((a.1 + b.1) as nat),
                        m == 0,
                ;
                lemma2_to64();
                lemma_code(0, 0);
                assert(nearest(0, den, 0));
                lemma_round_unique(0, den, 0);
            }
            return pack(negative, 0);
        }
        let e: i32 = a.1 + b.1 - 149;
        proof {
            lemma2_to64();
            let f = (a.1 + b.1) as nat;
            if e >= 0 {
                lemma_pow2_adds(e as nat, 149);
                assert(num * pow2(0) == m * pow2(e as nat) * den) by (nonlinear_arith)
                    requires
                        pow2(0) == 1,
                        num == m * pow2(f),
                        pow2(f) == pow2(e as nat) * den,
                ;
            } else {
                lemma_pow2_adds(f, (-e) as nat);
                assert(num * pow2((-e) as nat) == m * pow2(0) * den) by (nonlinear_arith)
                    requires
                        pow2(0) == 1,
                        num == m * pow2(f),
                        den == pow2(f) * pow2((-e) as nat),
                ;
            }
        }
        round_pack(negative, m, e, false, Ghost(num), Ghost(den))
    }
}

/// Addition does not depend on the order of its operands.
pub proof fn lemma_add_commutes(a: F32, b: F32)
    ensures
        a.add_spec(b) == b.add_spec(a),
{
    reveal(F32::add_spec);
    assert(a.units() + b.units() == b.units() + a.units());
    if a.inf_spec() && b.inf_spec() && a.neg_spec() == b.neg_spec() {
        assert(a.bits == b.bits);
    }
}


// ---------------------------------------------------------------------------
// Quotients and roots
// ---------------------------------------------------------------------------

/// How a quotient of whole numbers brackets the exact quotient.
proof fn lemma_quotient(
    q: int,
    sa: int,
    sb: int,
    ta: nat,
    tb: nat,
    ea: nat,
    eb: nat,
    e: int,
    exact: bool,
)
    requires
        sa > 0,
        sb > 0,
        e == ea - ta - eb + tb - 38 + 149,
        exact ==> q * (sb * pow2(tb)) == (sa * pow2(ta)) * pow2(38),
        !exact ==> q * (sb * pow2(tb)) < (sa * pow2(ta)) * pow2(38) < (q + 1) * (sb * pow2(tb)),
    ensures
        scaled((sa * pow2(ea)) * pow2(149), sb * pow2(eb), q, e, !exact),
{
    let pe = (if e >= 0 { e } else { 0 }) as nat;
    let ne = (if e >= 0 { 0 } else { -e }) as nat;
    let p = pow2(pe) as int;
    let n = pow2(ne) as int;
    let num = (sa * pow2(ea)) * pow2(149);
    let den = sb * pow2(eb);
    lemma_pow2_adds(ta, 38);
    lemma_pow2_adds(ta + 38, eb);
    lemma_pow2_adds(pe, ta + 38 + eb);
    lemma_pow2_adds(ea, 149);
    lemma_pow2_adds(ea + 149, tb);
    lemma_pow2_adds(ne, ea + 149 + tb);
    assert(pe + (ta + 38 + eb) == ne + (ea + 149 + tb));
    let u = pow2(ta + 38) as int;
    let v = pow2(ea + 149) as int;
    let w = pow2(tb) as int;
    let z = pow2(eb) as int;
    assert(p * (u * z) == n * (v * w));
    lemma_pow2_pos(ta + 38);
    lemma_pow2_pos(ea + 149);
    lemma_pow2_pos(ne);
    let f = n * v;
    assert(f > 0) by (nonlinear_arith)
        requires
            f == n * v,
            n > 0,
            v > 0,
    ;
    let top = (sa * pow2(ta)) * pow2(38);
    assert(top == sa * u) by (nonlinear_arith)
        requires
            top == (sa * pow2(ta)) * pow2(38),
            u == pow2(ta) * pow2(38),
    ;
    assert(num * n == sa * f) by (nonlinear_arith)
        requires
            num == (sa * pow2(ea)) * pow2(149),
            v == pow2(ea) * pow2(149),
            f == n * v,
    ;
    assert forall|x: int| #[trigger] (x * p * den) * u == (x * (sb * w)) * f by {
        assert((x * p * den) * u == (x * sb) * (p * (u * z))) by (nonlinear_arith)
            requires
                den == sb * z,
        ;
        assert((x * (sb * w)) * f == (x * sb) * (n * (v * w))) by (nonlinear_arith)
            requires
                f == n * v,
        ;
    }
    assert((num * n) * u == top * f) by (nonlinear_arith)
        requires
            num * n == sa * f,
            top == sa * u,
    ;
    assert((q * p * den) * u == (q * (sb * w)) * f);
    assert(((q + 1) * p * den) * u == ((q + 1) * (sb * w)) * f);
    lemma_cancel(q * (sb * w), top, f);
    lemma_cancel(top, (q + 1) * (sb * w), f);
    lemma_cancel(q * p * den, num * n, u);
    lemma_cancel(num * n, (q + 1) * p * den, u);
}

impl F32 {
    /// The quotient.
    pub fn div(self, o: F32) -> (r: F32)
        ensures
            r == self.div_spec(o),
    {
        reveal(F32::div_spec);
        let negative: bool = self.is_sign_negative() != o.is_sign_negative();
        if self.is_nan() || o.is_nan() {
            return F32 { bits: 0x7fc0_0000 };
        }
        if self.is_infinite() {
            if o.is_infinite() {
                return F32 { bits: 0x7fc0_0000 };
            }
            return pack(negative, INF_CODE);
        }
        if o.is_infinite() {
            return pack(negative, 0);
        }
        if o.code() == 0 {
            if self.code() == 0 {
                return F32 { bits: 0x7fc0_0000 };
            }
            return pack(negative, INF_CODE);
        }
        let a: (u64, i32) = self.parts();
        let b: (u64, i32) = o.parts();
        let ghost num = self.mag() * pow2(149);
        let ghost den = o.mag();
        proof {
            lemma2_to64();
            lemma_pow2_pos(149);
            lemma_pow2_pos(b.1 as nat);
            assert(den > 0) by (nonlinear_arith)
                requires
                    den == b.0 * pow2(b.1 as nat),
                    b.0 > 0,
                    pow2(b.1 as nat) > 0,
            ;
        }
        if a.0 == 0 {
            proof {
                assert(num == 0) by (nonlinear_arith)
                    requires
                        num == self.mag() * pow2(149),
                        self.mag() == a.0 * pow2(a.1 as nat),
                        a.0 == 0,
                ;
                lemma_code(0, 0);
                assert(nearest(0, den, 0)) by (nonlinear_arith)
                    requires
                        den > 0,
                        magnitude(0) == 0,
                        magnitude(1) == 1,
                ;
                lemma_round_unique(0, den, 0);
            }
            return pack(negative, 0);
        }
        let la: u32 = bit_len(a.0);
        let lb: u32 = bit_len(b.0);
        proof {
            if la > 24 {
                if la > 25 {
                    lemma_pow2_strictly_increases(24, (la - 1) as nat);
                }
            }
            if lb > 24 {
                if lb > 25 {
                    lemma_pow2_strictly_increases(24, (lb - 1) as nat);
                }
            }
        }
        let ta: u32 = 24 - la;
        let tb: u32 = 24 - lb;
        proof {
            lemma_aligned(a.0, la);
            lemma_aligned(b.0, lb);
        }
        let na: u64 = a.0 << (ta as u64);
        let nb: u64 = b.0 << (tb as u64);
        proof {
            lemma_pow2_adds(32, 6);
            lemma_u64_shl_is_mul(na, 38);
        }
        let top: u64 = na << 38u64;
        let q: u64 = top / nb;
        let rem: u64 = top % nb;
        let e: i32 = a.1 - ta as i32 - b.1 + tb as i32 - 38 + 149;
        proof {
            assert(top == q * nb + rem && 0 <= rem < nb) by (nonlinear_arith)
                requires
                    q == top as int / nb as int,
                    rem == top as int % nb as int,
                    nb > 0,
            ;
            assert((q + 1) * nb == q * nb + nb) by (nonlinear_arith);
            assert(q >= 0x200_0000 && q < 0x4000_0000_0000_0000) by (nonlinear_arith)
                requires
                    top == q * nb + rem,
                    rem < nb,
                    0x80_0000 <= nb < 0x100_0000,
                    top >= 0x80_0000 * 0x40_0000_0000,
                    top < 0x100_0000 * 0x40_0000_0000,
                    q >= 0,
            ;
            lemma_quotient(
                q as int,
                a.0 as int,
                b.0 as int,
                ta as nat,
                tb as nat,
                a.1 as nat,
                b.1 as nat,
                e as int,
                rem == 0,
            );
        }
        round_pack(negative, q, e, rem != 0, Ghost(num), Ghost(den))
    }
}

/// A significand shifted up to 24 bits.
proof fn lemma_aligned(s: u64, l: u32)
    requires
        1 <= l <= 24,
        pow2((l - 1) as nat) <= s < pow2(l as nat),
    ensures
        s << ((24 - l) as u64) == s * pow2((24 - l) as nat),
        0x80_0000 <= s * pow2((24 - l) as nat) < 0x100_0000,
{
    lemma2_to64();
    let t = (24 - l) as nat;
    lemma_pow2_adds((l - 1) as nat, t);
    lemma_pow2_adds(l as nat, t);
    lemma_pow2_pos(t);
    assert((l - 1) as nat + t == 23 && l as nat + t == 24);
    assert(0x80_0000 <= s * pow2(t) < 0x100_0000) by (nonlinear_arith)
        requires
            pow2((l - 1) as nat) <= s < pow2(l as nat),
            pow2((l - 1) as nat) * pow2(t) == 0x80_0000,
            pow2(l as nat) * pow2(t) == 0x100_0000,
            pow2(t) > 0,
    ;
    lemma_u64_shl_is_mul(s, t as u64);
}

/// The whole part of the square root.
fn int_sqrt(n: u64) -> (r: u64)
    requires
        n < 0x1000_0000_0000_0000,
    ensures
        r < 0x4000_0000,
        r * r <= n < (r + 1) * (r + 1),
{
    let mut r: u64 = 0;
    let mut step: u64 = 0x2000_0000;
    let mut i: u32 = 30;
    proof {
        lemma2_to64();
    }
    while i > 0
        invariant
            0 <= i <= 30,
            n < 0x1000_0000_0000_0000,
            i > 0 ==> step == pow2((i - 1) as nat),
            r * r <= n < (r + pow2(i as nat)) * (r + pow2(i as nat)),
            r + pow2(i as nat) <= 0x4000_0000,
        decreases i,
    {
        proof {
            lemma_pow2_unfold(i as nat);
            lemma_pow2_pos((i - 1) as nat);
            if i > 1 {
                lemma_pow2_unfold((i - 1) as nat);
            }
            lemma2_to64();
        }
        let t: u64 = r + step;
        proof {
            assert(t * t < 0x1000_0000_0000_0000) by (nonlinear_arith)
                requires
                    t < 0x4000_0000,
            ;
        }
        if t * t <= n {
            r = t;
        }
        step = step / 2;
        i = i - 1;
    }
    proof {
        lemma2_to64();
    }
    r
}

/// Rounding of a root that lies in the cell of `m` at exponent `e`.
proof fn lemma_root(n: int, m: int, e: int, exact: bool, q: int, rem: int, up: bool)
    requires
        e >= 0,
        0x80_0000 * 64 <= m < 0x100_0000 * 64,
        m == 64 * q + rem,
        0 <= rem < 64,
        (m * pow2(e as nat)) * (m * pow2(e as nat)) <= n,
        exact <==> (m * pow2(e as nat)) * (m * pow2(e as nat)) == n,
        n < ((m + 1) * pow2(e as nat)) * ((m + 1) * pow2(e as nat)),
        up <==> (rem > 32 || (rem == 32 && (!exact || q % 2 == 1))),
        (e + 6) * 0x80_0000 + q + 1 < INF_CODE,
    ensures
        nearest_root(n, (e + 6) * 0x80_0000 + q + if up { 1int } else { 0int }),
{
    let g = pow2(e as nat) as int;
    let p = pow2((e + 6) as nat) as int;
    lemma_pow2_pos(e as nat);
    lemma_pow2_adds(6, e as nat);
    lemma2_to64();
    assert(p == 64 * g);
    let c = (e + 6) * 0x80_0000 + q;
    lemma_code(q, e + 6);
    lemma_magnitude_increases(c - 1, c);
    lemma_magnitude_increases(c + 1, c + 2);
    assert(c % 2 == q % 2);
    let lo = m * g;
    let hi = (m + 1) * g;
    let mid = magnitude(c) + magnitude(c + 1);
    let h = (64 * q + 32) * g;
    assert(mid == 2 * h) by (nonlinear_arith)
        requires
            mid == q * p + (q + 1) * p,
            p == 64 * g,
            h == (64 * q + 32) * g,
    ;
    assert(mid * mid == 4 * (h * h)) by (nonlinear_arith)
        requires
            mid == 2 * h,
    ;
    assert(q * p <= lo && hi <= (q + 1) * p && 0 <= q * p && 0 < lo) by (nonlinear_arith)
        requires
            p == 64 * g,
            lo == m * g,
            hi == (m + 1) * g,
            64 * q <= m,
            m + 1 <= 64 * q + 64,
            g > 0,
            q > 0,
    ;
    if up {
        // Above the midpoint, below the next magnitude.
        assert(h <= lo && (rem > 32 ==> h < lo)) by (nonlinear_arith)
            requires
                h == (64 * q + 32) * g,
                lo == m * g,
                m == 64 * q + rem,
                rem >= 32,
                g > 0,
        ;
        assert(h > 0) by (nonlinear_arith)
            requires
                h == (64 * q + 32) * g,
                q > 0,
                g > 0,
        ;
        if h < lo {
            lemma_square_increases(h, lo);
        }
        let above = magnitude(c + 1) + magnitude(c + 2);
        lemma_square_increases(2 * hi, above);
        assert((2 * hi) * (2 * hi) == 4 * (hi * hi)) by (nonlinear_arith);
    } else {
        assert(rem < 32 ==> hi <= h) by (nonlinear_arith)
            requires
                h == (64 * q + 32) * g,
                hi == (m + 1) * g,
                m == 64 * q + rem,
                g > 0,
        ;
        assert(rem == 32 ==> lo == h) by (nonlinear_arith)
            requires
                h == (64 * q + 32) * g,
                lo == m * g,
                m == 64 * q + rem,
        ;
        assert(hi > 0) by (nonlinear_arith)
            requires
                hi == (m + 1) * g,
                m > 0,
                g > 0,
        ;
        if rem < 32 && hi < h {
            lemma_square_increases(hi, h);
        }
        let below = magnitude(c - 1) + magnitude(c);
        lemma_square_increases(below, 2 * lo);
        assert((2 * lo) * (2 * lo) == 4 * (lo * lo)) by (nonlinear_arith);
    }
}

impl F32 {
    /// The square root.
    pub fn sqrt(self) -> (r: F32)
        ensures
            r == self.sqrt_spec(),
    {
        reveal(F32::sqrt_spec);
        if self.is_nan() {
            return F32 { bits: 0x7fc0_0000 };
        }
        if self.code() == 0 {
            return self;
        }
        if self.is_sign_negative() {
            return F32 { bits: 0x7fc0_0000 };
        }
        if self.is_infinite() {
            return self;
        }
        let a: (u64, i32) = self.parts();
        let ghost n = self.mag() * pow2(149);
        let l: u32 = bit_len(a.0);
        proof {
            lemma2_to64();
            if l > 25 {
                lemma_pow2_strictly_increases(24, (l - 1) as nat);
            }
        }
        // Shift to 59 or 60 bits, so that an even power of two remains.
        let t0: i32 = 60 - l as i32;
        let t: i32 = if (a.1 + 149 - t0) % 2 == 0 {
            t0
        } else {
            t0 - 1
        };
        proof {
            lemma_pow2_adds((l - 1) as nat, t as nat);
            lemma_pow2_adds(l as nat, t as nat);
            lemma_pow2_pos(t as nat);
            lemma_pow2_adds(32, 28);
            lemma_pow2_adds(32, 27);
            lemma_pow2_adds(32, 26);
            let w = a.0 * pow2(t as nat);
            assert(pow2((l - 1) as nat) * pow2(t as nat) <= w < pow2(l as nat) * pow2(t as nat))
                by (nonlinear_arith)
                requires
                    w == a.0 * pow2(t as nat),
                    pow2((l - 1) as nat) <= a.0 < pow2(l as nat),
                    pow2(t as nat) > 0,
            ;
            assert((l - 1) as nat + t as nat == 59 || (l - 1) as nat + t as nat == 58);
            assert(0x400_0000_0000_0000 <= w < 0x1000_0000_0000_0000);
            lemma_u64_shl_is_mul(a.0, t as u64);
        }
        let w: u64 = a.0 << (t as u64);
        let m: u64 = int_sqrt(w);
        proof {
            assert(m * m < 0x1000_0000_0000_0000) by (nonlinear_arith)
                requires
                    0 <= m < 0x4000_0000,
            ;
            assert(m >= 0x2000_0000) by (nonlinear_arith)
                requires
                    w < (m + 1) * (m + 1),
                    w >= 0x400_0000_0000_0000,
                    m >= 0,
            ;
        }
        let exact: bool = m * m == w;
        let e: i32 = (a.1 + 149 - t) / 2;
        let q: u64 = m / 64;
        let rem: u64 = m % 64;
        let up: bool = rem > 32 || (rem == 32 && (!exact || q % 2 == 1));
        let code: u32 = ((e + 6) as u32) * BINADE + q as u32;
        proof {
            assert(2 * e == a.1 + 149 - t);
            lemma_pow2_adds(e as nat, e as nat);
            lemma_pow2_adds(t as nat, (2 * e) as nat);
            lemma_pow2_adds(a.1 as nat, 149);
            assert(t as nat + (2 * e) as nat == a.1 as nat + 149);
            let g = pow2(e as nat) as int;
            let gg = g * g;
            assert(n == w * gg) by (nonlinear_arith)
                requires
                    n == (a.0 * pow2(a.1 as nat)) * pow2(149),
                    w == a.0 * pow2(t as nat),
                    pow2(t as nat) * gg == pow2(a.1 as nat) * pow2(149),
            ;
            lemma_pow2_pos(e as nat);
            assert(gg > 0) by (nonlinear_arith)
                requires
                    gg == g * g,
                    g > 0,
            ;
            assert((m * g) * (m * g) == (m * m) * gg) by (nonlinear_arith)
                requires
                    gg == g * g,
            ;
            assert(((m + 1) * g) * ((m + 1) * g) == ((m + 1) * (m + 1)) * gg) by (nonlinear_arith)
                requires
                    gg == g * g,
            ;
            lemma_cancel(w as int, m * m, gg);
            lemma_cancel(w as int, (m + 1) * (m + 1), gg);
            lemma_root(n, m as int, e as int, exact, q as int, rem as int, up);
            lemma_round_root_unique(n, code + if up { 1int } else { 0int });
        }
        if up {
            pack(false, code + 1)
        } else {
            pack(false, code)
        }
    }
}


// ---------------------------------------------------------------------------
// Order, integers
// ---------------------------------------------------------------------------

/// A magnitude is its own nearest one.
pub proof fn lemma_round_exact(c: int)
    requires
        0 <= c < INF_CODE,
    ensures
        round(magnitude(c), 1) == c,
{
    lemma_magnitude_increases(c, c + 1);
    if c > 0 {
        lemma_magnitude_increases(c - 1, c);
    }
    assert(nearest(magnitude(c), 1, c));
    lemma_round_unique(magnitude(c), 1, c);
}

/// The quotient of finite numbers by a nonzero one is a number, and its sign
/// is that of the operands.
pub proof fn lemma_div_finite(a: F32, b: F32)
    requires
        a.finite_spec(),
        b.finite_spec(),
        !b.zero_spec(),
    ensures
        !a.div_spec(b).nan_spec(),
        a.div_spec(b).neg_spec() == (a.neg_spec() != b.neg_spec()),
{
    reveal(F32::div_spec);
    lemma_code(0, 0);
    lemma2_to64();
    lemma_magnitude_increases(0, b.code_spec());
    if a.code_spec() > 0 {
        lemma_magnitude_increases(0, a.code_spec());
    }
    lemma_pow2_pos(149);
    assert(a.mag() * pow2(149) >= 0) by (nonlinear_arith)
        requires
            a.mag() >= 0,
            pow2(149) > 0,
    ;
    lemma_round_exists(a.mag() * pow2(149), b.mag());
}

/// A number within bounds `-lim` and `lim` of whole value `n` converts to an
/// integer within `-n` and `n`.
pub proof fn lemma_int_within(x: F32, lim: F32, n: int, lo: int, hi: int)
    requires
        lim.finite_spec(),
        !lim.neg_spec(),
        lim.whole() == n,
        lo <= -n <= 0,
        0 <= n <= hi,
        x.nan_spec() || -lim.key() <= x.key() <= lim.key(),
    ensures
        -n <= x.int_spec(lo, hi) <= n,
{
    lemma_pow2_pos(149);
    if !x.nan_spec() {
        let c = x.code_spec();
        let l = lim.code_spec();
        lemma_code(0, 0);
        lemma2_to64();
        if c > 0 {
            lemma_magnitude_increases(0, c);
        }
        if c < l {
            lemma_magnitude_increases(c, l);
        }
        let d = pow2(149) as int;
        assert(0 <= magnitude(c) / d <= magnitude(l) / d) by (nonlinear_arith)
            requires
                0 <= magnitude(c) <= magnitude(l),
                d > 0,
        ;
    }
}

/// The order of finite numbers is the order of their values.
pub proof fn lemma_lt_is_value_order(a: F32, b: F32)
    requires
        a.finite_spec(),
        b.finite_spec(),
    ensures
        a.lt_spec(b) <==> a.units() < b.units(),
{
    let ca = a.code_spec();
    let cb = b.code_spec();
    lemma_code(0, 0);
    lemma2_to64();
    if ca > 0 {
        lemma_magnitude_increases(0, ca);
    }
    if cb > 0 {
        lemma_magnitude_increases(0, cb);
    }
    if ca < cb {
        lemma_magnitude_increases(ca, cb);
    }
    if cb < ca {
        lemma_magnitude_increases(cb, ca);
    }
}

proof fn lemma_div_is(x: int, d: int, q: int)
    requires
        d > 0,
        q * d <= x < (q + 1) * d,
    ensures
        x / d == q,
{
    assert((q + 1) * d == q * d + d) by (nonlinear_arith);
    lemma_fundamental_div_mod_converse(x, d, q, x - q * d);
}

impl F32 {
    /// Zero.
    pub fn zero() -> (r: F32)
        ensures
            r.bits == 0,
    {
        F32 { bits: 0 }
    }

    /// One.
    pub fn one() -> (r: F32)
        ensures
            r.bits == ONE_CODE,
    {
        F32 { bits: ONE_CODE }
    }

    /// Negative infinity, below every other number.
    pub fn neg_infinity() -> (r: F32)
        ensures
            r.bits == 0xff80_0000,
    {
        F32 { bits: 0xff80_0000 }
    }

    /// Infinity, above every other number.
    pub fn infinity() -> (r: F32)
        ensures
            r.bits == INF_CODE,
    {
        F32 { bits: INF_CODE }
    }

    fn order(self) -> (k: i64)
        ensures
            k == self.key(),
    {
        if self.is_sign_negative() {
            0 - self.code() as i64
        } else {
            self.code() as i64
        }
    }

    /// Whether `self` is less than `o`.
    pub fn lt(self, o: F32) -> (b: bool)
        ensures
            b == self.lt_spec(o),
    {
        !self.is_nan() && !o.is_nan() && self.order() < o.order()
    }

    /// Whether both have the same value; zeros of either sign are equal.
    pub fn same_value(self, o: F32) -> (b: bool)
        ensures
            b == (!self.nan_spec() && !o.nan_spec() && self.key() == o.key()),
    {
        !self.is_nan() && !o.is_nan() && self.order() == o.order()
    }

    /// Whether `self` stands before `o` in the total order of bit patterns.
    pub fn total_lt(self, o: F32) -> (b: bool)
        ensures
            b == (self.total_key() < o.total_key()),
    {
        let a: i64 = if self.is_sign_negative() {
            0 - self.code() as i64 - 1
        } else {
            self.code() as i64
        };
        let b: i64 = if o.is_sign_negative() {
            0 - o.code() as i64 - 1
        } else {
            o.code() as i64
        };
        a < b
    }

    /// The larger number.
    pub fn max(self, o: F32) -> (r: F32)
        ensures
            r == self.max_spec(o),
    {
        if self.is_nan() {
            o
        } else if self.lt(o) {
            o
        } else {
            self
        }
    }

    /// The smaller number.
    pub fn min(self, o: F32) -> (r: F32)
        ensures
            r == self.min_spec(o),
    {
        if self.is_nan() {
            o
        } else if o.lt(self) {
            o
        } else {
            self
        }
    }

    /// The number held between two bounds.
    pub fn clamp(self, lo: F32, hi: F32) -> (r: F32)
        ensures
            r == self.clamp_spec(lo, hi),
    {
        if self.lt(lo) {
            lo
        } else if hi.lt(self) {
            hi
        } else {
            self
        }
    }

    /// The number without its sign.
    pub fn abs(self) -> (r: F32)
        ensures
            r == self.abs_spec(),
    {
        pack(false, self.code())
    }

    /// The number nearest to an unsigned integer.
    pub fn from_u64(n: u64) -> (r: F32)
        ensures
            r == of_int(n as int),
    {
        Self::from_sign_magnitude(false, n)
    }

    /// The number nearest to a signed integer.
    pub fn from_i64(n: i64) -> (r: F32)
        ensures
            r == of_int(n as int),
    {
        if n < 0 {
            let m: u64 = (-(n as i128)) as u64;
            Self::from_sign_magnitude(true, m)
        } else {
            Self::from_sign_magnitude(false, n as u64)
        }
    }

    fn from_sign_magnitude(negative: bool, n: u64) -> (r: F32)
        requires
            negative ==> n > 0,
        ensures
            r == of_int(if negative { -(n as int) } else { n as int }),
    {
        reveal(of_int);
        let ghost num = n * pow2(149);
        proof {
            lemma2_to64();
            lemma_pow2_pos(149);
        }
        if n == 0 {
            proof {
                assert(num == 0) by (nonlinear_arith)
                    requires
                        num == n * pow2(149),
                        n == 0,
                ;
                lemma_code(0, 0);
                lemma_round_exact(0);
            }
            return pack(false, 0);
        }
        if n < 0x4000_0000_0000_0000 {
            assert(num * pow2(0) == n * pow2(149) * 1) by (nonlinear_arith)
                requires
                    pow2(0) == 1,
                    num == n * pow2(149),
            ;
            round_pack(negative, n, 149, false, Ghost(num), Ghost(1))
        } else {
            let m: u64 = n / 4;
            let dropped: bool = n % 4 != 0;
            proof {
                lemma_pow2_adds(2, 149);
                let p = pow2(149) as int;
                let p4 = pow2(151) as int;
                assert(p4 == 4 * p);
                assert(num * pow2(0) == num) by (nonlinear_arith)
                    requires
                        pow2(0) == 1,
                ;
                assert(m * p4 * 1 == (4 * m) * p && (m + 1) * p4 * 1 == (4 * m + 4) * p)
                    by (nonlinear_arith)
                    requires
                        p4 == 4 * p,
                ;
                lemma_cancel(4 * m, n as int, p);
                lemma_cancel(n as int, 4 * m + 4, p);
            }
            round_pack(negative, m, 151, dropped, Ghost(num), Ghost(1))
        }
    }

    /// The whole part of the magnitude, stopping at the largest `u64`.
    fn whole_part(self) -> (n: u64)
        requires
            self.finite_spec(),
        ensures
            n == if self.whole() > u64::MAX { u64::MAX as int } else { self.whole() },
    {
        let a: (u64, i32) = self.parts();
        let ghost big = pow2(149) as int;
        proof {
            lemma2_to64();
            lemma_pow2_pos(149);
        }
        if a.1 >= 149 {
            let j: i32 = a.1 - 149;
            proof {
                lemma_pow2_adds(j as nat, 149);
                let t = pow2(j as nat) as int;
                let w = a.0 * t;
                assert(w * big <= self.mag() < (w + 1) * big) by (nonlinear_arith)
                    requires
                        self.mag() == a.0 * (t * big),
                        w == a.0 * t,
                        big > 0,
                ;
                lemma_div_is(self.mag(), big, w);
            }
            if j <= 40 {
                proof {
                    lemma_pow2_adds(32, 8);
                    if j < 40 {
                        lemma_pow2_strictly_increases(j as nat, 40);
                    }
                    assert(a.0 * pow2(j as nat) <= 0xff_ffff * 0x100_0000_0000) by (nonlinear_arith)
                        requires
                            a.0 <= 0xff_ffff,
                            pow2(j as nat) <= 0x100_0000_0000,
                    ;
                    lemma_u64_shl_is_mul(a.0, j as u64);
                }
                a.0 << (j as u64)
            } else {
                proof {
                    lemma_pow2_adds(32, 9);
                    if j > 41 {
                        lemma_pow2_strictly_increases(41, j as nat);
                    }
                    assert(a.0 * pow2(j as nat) >= 0x80_0000 * 0x200_0000_0000) by (nonlinear_arith)
                        requires
                            a.0 >= 0x80_0000,
                            pow2(j as nat) >= 0x200_0000_0000,
                    ;
                }
                u64::MAX
            }
        } else {
            let j: i32 = 149 - a.1;
            proof {
                lemma_pow2_adds(j as nat, a.1 as nat);
                lemma_pow2_pos(j as nat);
                lemma_pow2_pos(a.1 as nat);
                let t = pow2(j as nat) as int;
                let g = pow2(a.1 as nat) as int;
                let w = a.0 as int / t;
                assert(w * t <= a.0 < (w + 1) * t) by (nonlinear_arith)
                    requires
                        w == a.0 as int / t,
                        t > 0,
                ;
                assert(w * big <= self.mag() < (w + 1) * big) by (nonlinear_arith)
                    requires
                        self.mag() == a.0 * g,
                        big == t * g,
                        w * t <= a.0 < (w + 1) * t,
                        g > 0,
                ;
                lemma_div_is(self.mag(), big, w);
                if j >= 24 {
                    if j > 24 {
                        lemma_pow2_strictly_increases(24, j as nat);
                    }
                    lemma_div_is(a.0 as int, t, 0);
                } else {
                    lemma_u64_shr_is_div(a.0, j as u64);
                }
            }
            if j >= 24 {
                0
            } else {
                a.0 >> (j as u64)
            }
        }
    }

    /// Conversion to an integer between `lo` and `hi`.
    pub fn to_int(self, lo: i64, hi: i64) -> (n: i64)
        requires
            lo <= 0 <= hi,
        ensures
            n == self.int_spec(lo as int, hi as int),
    {
        if self.is_nan() {
            return 0;
        }
        let negative: bool = self.is_sign_negative();
        if self.is_infinite() {
            return if negative { lo } else { hi };
        }
        let w: u64 = self.whole_part();
        if negative {
            if w as i128 > -(lo as i128) {
                lo
            } else {
                (-(w as i128)) as i64
            }
        } else {
            if w as i128 > hi as i128 {
                hi
            } else {
                w as i64
            }
        }
    }

    /// Conversion to an index.
    pub fn to_usize(self) -> (n: usize)
        ensures
            n == self.int_spec(0, usize::MAX as int),
    {
        proof {
            lemma_code(0, 0);
            lemma2_to64();
            lemma_pow2_pos(149);
            if self.code_spec() > 0 {
                lemma_magnitude_increases(0, self.code_spec());
            }
            assert(self.whole() >= 0) by (nonlinear_arith)
                requires
                    self.whole() == self.mag() / pow2(149) as int,
                    self.mag() >= 0,
                    pow2(149) > 0,
            ;
        }
        if self.is_nan() || self.is_sign_negative() {
            return 0;
        }
        if self.is_infinite() {
            return usize::MAX;
        }
        let w: u64 = self.whole_part();
        if w as u128 > usize::MAX as u128 {
            usize::MAX
        } else {
            w as usize
        }
    }

    /// The nearest integer, halves away from zero.
    pub fn round(self) -> (r: F32)
        ensures
            r == self.round_spec(),
    {
        reveal(F32::round_spec);
        if !self.is_finite() {
            return self;
        }
        let a: (u64, i32) = self.parts();
        let negative: bool = self.is_sign_negative();
        let ghost big = pow2(149) as int;
        let ghost n = (2 * self.mag() + pow2(149)) / pow2(150) as int;
        proof {
            lemma2_to64();
            lemma_pow2_pos(149);
            lemma_pow2_unfold(150);
        }
        if a.1 >= 149 {
            proof {
                let j = (a.1 - 149) as nat;
                lemma_pow2_adds(j, 149);
                let t = pow2(j) as int;
                let w = a.0 * t;
                assert(self.mag() == w * big) by (nonlinear_arith)
                    requires
                        self.mag() == a.0 * (t * big),
                        w == a.0 * t,
                ;
                assert(w * (2 * big) <= 2 * self.mag() + big < (w + 1) * (2 * big))
                    by (nonlinear_arith)
                    requires
                        self.mag() == w * big,
                        big > 0,
                ;
                lemma_div_is(2 * self.mag() + big, 2 * big, w);
                lemma_round_exact(self.code_spec());
            }
            return self;
        }
        let j: i32 = 149 - a.1;
        proof {
            lemma_pow2_adds(j as nat, a.1 as nat);
            lemma_pow2_pos(j as nat);
            lemma_pow2_pos(a.1 as nat);
            lemma_pow2_unfold(j as nat);
            let t = pow2(j as nat) as int;
            let h = pow2((j - 1) as nat) as int;
            let g = pow2(a.1 as nat) as int;
            let w = (a.0 + h) / t;
            assert(w * t <= a.0 + h < (w + 1) * t) by (nonlinear_arith)
                requires
                    w == (a.0 + h) / t,
                    t > 0,
            ;
            assert(w * (2 * big) <= 2 * self.mag() + big < (w + 1) * (2 * big)) by (nonlinear_arith)
                requires
                    self.mag() == a.0 * g,
                    big == t * g,
                    t == 2 * h,
                    w * t <= a.0 + h < (w + 1) * t,
                    g > 0,
            ;
            lemma_div_is(2 * self.mag() + big, 2 * big, w);
            assert(n == w);
            if j >= 26 {
                if j > 26 {
                    lemma_pow2_strictly_increases(25, (j - 1) as nat);
                }
                lemma_div_is(a.0 + h, t, 0);
            } else {
                lemma_pow2_strictly_increases((j - 1) as nat, 26);
                assert(1 * pow2((j - 1) as nat) == h) by (nonlinear_arith)
                    requires
                        h == pow2((j - 1) as nat),
                ;
                lemma_u64_shl_is_mul(1, (j - 1) as u64);
                lemma_u64_shr_is_div((a.0 + h) as u64, j as u64);
            }
        }
        let w: u64 = if j >= 26 {
            0
        } else {
            let half: u64 = 1u64 << ((j - 1) as u64);
            (a.0 + half) >> (j as u64)
        };
        let ghost num = w * pow2(149);
        assert(num == n * pow2(149));
        if w == 0 {
            proof {
                assert(num == 0) by (nonlinear_arith)
                    requires
                        num == w * pow2(149),
                        w == 0,
                ;
                lemma_code(0, 0);
                lemma_round_exact(0);
            }
            return pack(negative, 0);
        }
        proof {
            lemma_pow2_pos(j as nat);
            assert(w < 0x4000_0000_0000_0000) by {
                let t = pow2(j as nat) as int;
                let h = pow2((j - 1) as nat) as int;
                assert((a.0 + h) / t <= a.0 + h) by (nonlinear_arith)
                    requires
                        t > 0,
                        a.0 + h >= 0,
                ;
            }
            assert(num * pow2(0) == w * pow2(149) * 1) by (nonlinear_arith)
                requires
                    pow2(0) == 1,
                    num == w * pow2(149),
            ;
        }
        round_pack(negative, w, 149, false, Ghost(num), Ghost(1))
    }
}

} // verus!
