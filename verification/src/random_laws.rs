//! What is drawn at random: uniform and normal numbers, orders, and the elements that
//! dropout leaves out.
use crate::activation_laws::lemma_half;
use crate::float::{F32, ONE_CODE};
use crate::float_errors::{
    lemma_add_sign, lemma_cancel, lemma_div_miss, lemma_mul_miss, lemma_negated, lemma_order,
    lemma_size_product, lemma_sqrt_miss, lemma_sub_miss, lemma_unit, lemma_value, positive, size, unit,
};
use crate::math::{is_cos, is_ln, Math};
use crate::rng::{
    exchanged, in_order, is_normal, scramble, shuffled, state_after, swaps,
    uniform_numbers_are_in_the_unit_interval, unit_of, xorshift,
};
use crate::rounding::lemma_round_at_most;
use crate::sum_errors::lemma_mul_parts;
use crate::train_block::{mask_of, seeded};
use vstd::arithmetic::power2::{lemma2_to64, lemma_pow2_adds, pow2};
use vstd::prelude::*;

verus! {

/// The number of the upper 24 of 64 bits.
pub open spec fn upper_bits(v: u64) -> int {
    v as int / 0x100_0000_0000
}

/// A uniform number is exactly as many 2^24th parts of one as the upper bits say.
pub proof fn uniform_numbers_are_the_upper_bits(v: u64)
    ensures
        unit_of(v).finite_spec(),
        unit_of(v).units() * 0x100_0000 == upper_bits(v) * unit(),
        0 <= upper_bits(v) < 0x100_0000,
{
    uniform_numbers_are_in_the_unit_interval(v);
    lemma_unit();
    lemma2_to64();
    lemma_pow2_adds(24, 125);
    lemma_value(unit_of(v));
    let (k, q) = (upper_bits(v), pow2(125) as int);
    assert((k * q) * 0x100_0000 == k * (0x100_0000 * q)) by (nonlinear_arith);
    assert(k * q >= 0) by (nonlinear_arith)
        requires
            k >= 0,
            q >= 0,
    ;
}

// ---------------------------------------------------------------------------
// Orders
// ---------------------------------------------------------------------------

/// Exchanges up to a place leave those behind it.
proof fn lemma_swaps_keep(p: Seq<usize>, state: u64, i: nat, k: int)
    requires
        i < p.len(),
        i < k < p.len(),
    ensures
        swaps(p, state, i).len() == p.len(),
        swaps(p, state, i)[k] == p[k],
    decreases i,
{
    if i > 0 {
        let next = xorshift(state);
        let j = scramble(next) as int % (i + 1) as int;
        lemma_swaps_keep(exchanged(p, i as int, j), next, (i - 1) as nat, k);
    }
}

/// In a random order each number can come last: the last is the first that is drawn, of
/// all `n`.
pub proof fn the_last_place_is_drawn_from_all(state: u64, n: nat)
    requires
        0 < n <= usize::MAX,
    ensures
        shuffled(state, n).last() == scramble(xorshift(state)) as int % n as int,
{
    let p = in_order(n);
    if n > 1 {
        let next = xorshift(state);
        let j = scramble(next) as int % n as int;
        let q = exchanged(p, n - 1, j);
        lemma_swaps_keep(q, next, (n - 2) as nat, n - 1);
        assert(q[n - 1] == p[j]);
    } else {
        assert(scramble(xorshift(state)) as int % 1 == 0);
    }
}

// ---------------------------------------------------------------------------
// Dropout
// ---------------------------------------------------------------------------

/// The bits that are drawn for element `i`.
pub open spec fn drawn_for(seed: u64, i: int) -> u64 {
    scramble(state_after(seeded(seed), (i + 1) as nat))
}

/// Elements are dropped with the rate as probability: of the 2^24 numbers that can be
/// drawn, those below the rate drop their element. The others are kept, and their factor
/// makes up for the dropped ones: it is one over what the rate leaves of one, up to
/// rounding.
pub proof fn elements_are_dropped_at_the_rate(rate: F32, seed: u64, n: nat, i: int)
    requires
        positive(rate),
        rate.units() < unit(),
        0 <= i < n,
    ensures
        ({
            let f = mask_of(rate, seed, n)[i];
            let p = unit();
            let dropped = upper_bits(drawn_for(seed, i)) * p < rate.units() * 0x100_0000;
            &&& f.zero_spec() <==> dropped
            &&& !dropped && f.finite_spec() ==> size(f.units() * (p - rate.units()) - p * p)
                * 0x40_0000 <= p * p + 0x40_0000 * p
        }),
{
    lemma_unit();
    let p = unit();
    let f = mask_of(rate, seed, n)[i];
    let u = unit_of(drawn_for(seed, i));
    uniform_numbers_are_the_upper_bits(drawn_for(seed, i));
    uniform_numbers_are_in_the_unit_interval(drawn_for(seed, i));
    lemma_value(rate);
    lemma_order(u, rate);
    if !u.lt_spec(rate) {
        let one = F32 { bits: ONE_CODE };
        let d = one.sub_spec(rate);
        let e = p - rate.units();
        lemma_negated(rate);
        lemma_add_sign(one, rate.negated());
        assert(d.finite_spec() && d.code_spec() <= ONE_CODE) by {
            reveal(F32::add_spec);
            assert(size(e) <= p * 1);
            lemma_round_at_most(size(e), 1, ONE_CODE as int);
        }
        lemma_sub_miss(one, rate);
        lemma_value(d);
        assert(f == one.div_spec(d));
        if f.finite_spec() {
            lemma_div_miss(one, d);
            lemma_value(f);
            lemma_made_up(f.units(), d.units(), e, p);
        }
    }
}

/// The factor of what is kept.
#[verifier::rlimit(60)]
#[verifier::spinoff_prover]
proof fn lemma_made_up(f: int, d: int, e: int, p: int)
    requires
        0 < e <= p,
        d > 0,
        size(d - e) * 0x100_0000 <= e,
        size(f * d - p * p) * 0x100_0000 <= p * p + 0x80_0000 * d,
    ensures
        size(f * e - p * p) * 0x40_0000 <= p * p + 0x40_0000 * p,
        f != 0,
{
    let (fd, fe, pp) = (f * d, f * e, p * p);
    let g = d - e;
    lemma_size_product(f, g);
    let (sf, sg) = (size(f), size(g));
    assert(f * g == fd - fe) by (nonlinear_arith)
        requires
            g == d - e,
            fd == f * d,
            fe == f * e,
    ;
    lemma_size_product(f, e);
    assert((sf * sg) * 0x100_0000 <= sf * e) by (nonlinear_arith)
        requires
            sg * 0x100_0000 <= e,
            sf >= 0,
    ;
    assert(pp >= p) by (nonlinear_arith)
        requires
            pp == p * p,
            p >= 1,
    ;
    assert(d <= 2 * p);
    if f == 0 {
        assert(f * d == 0) by (nonlinear_arith)
            requires
                f == 0,
        ;
    }
}

/// What is dropped at a rate is dropped at every higher one.
pub proof fn higher_rates_drop_more(a: F32, b: F32, seed: u64, n: nat, i: int)
    requires
        positive(a),
        positive(b),
        a.units() <= b.units() < unit(),
        0 <= i < n,
        mask_of(a, seed, n)[i].zero_spec(),
    ensures
        mask_of(b, seed, n)[i].zero_spec(),
{
    elements_are_dropped_at_the_rate(a, seed, n, i);
    elements_are_dropped_at_the_rate(b, seed, n, i);
}

// ---------------------------------------------------------------------------
// Normal numbers
// ---------------------------------------------------------------------------

/// A number on a circle: its distance from the middle, squared, is minus twice the
/// logarithm `l`, and `r` is its part along the direction with cosine `c`; both up to
/// rounding.
pub open spec fn is_point_on_circle(l: F32, c: F32, r: F32, s: F32) -> bool {
    let p = unit();
    &&& positive(s)
    &&& size(s.units() * s.units() + 2 * l.units() * p) * 0x20_0000 <= s.units() * s.units()
    &&& size(r.units() * p - s.units() * c.units()) * 0x100_0000 <= size(s.units() * c.units())
        + 0x80_0000 * p
}

/// A normal number comes from two uniform ones: the first gives the distance, by its
/// logarithm, the second the part of a full turn.
pub proof fn normal_numbers_lie_on_circles<M: Math>(m: &M, u1: F32, u2: F32, r: F32)
    requires
        is_normal(m, u1, u2, r),
        r.finite_spec(),
    ensures
        exists|l: F32, c: F32|
            {
                &&& #[trigger] is_ln(m, u1.max_spec(F32 { bits: 0x33d6_bf95 }), l)
                &&& #[trigger] is_cos(m, (F32 { bits: 0x40c9_0fdb }).mul_spec(u2), c)
                &&& l.finite_spec() && l.units() < 0 ==> exists|s: F32| #[trigger]
                    is_point_on_circle(l, c, r, s)
            },
{
    let (l, c) = choose|l: F32, c: F32|
        {
            &&& #[trigger] is_ln(m, u1.max_spec(F32 { bits: 0x33d6_bf95 }), l)
            &&& #[trigger] is_cos(m, (F32 { bits: 0x40c9_0fdb }).mul_spec(u2), c)
            &&& r == (F32 { bits: 0xc000_0000 }).mul_spec(l).sqrt_spec().mul_spec(c)
        };
    if l.finite_spec() && l.units() < 0 {
        lemma_circle(l, c, r);
    }
}

proof fn lemma_circle(l: F32, c: F32, r: F32)
    requires
        r == (F32 { bits: 0xc000_0000 }).mul_spec(l).sqrt_spec().mul_spec(c),
        r.finite_spec(),
        l.finite_spec(),
        l.units() < 0,
    ensures
        is_point_on_circle(
            l,
            c,
            r,
            (F32 { bits: 0xc000_0000 }).mul_spec(l).sqrt_spec(),
        ),
{
    lemma_unit();
    lemma_half();
    let two = F32 { bits: 0xc000_0000 };
    let x = two.mul_spec(l);
    let s = x.sqrt_spec();
    let p = unit();
    lemma_mul_parts(s, c);
    assert(x.finite_spec()) by {
        reveal(F32::sqrt_spec);
        reveal(F32::mul_spec);
    }
    assert(two.units() == -2 * p);
    lemma_mul_miss(two, l);
    lemma_value(x);
    assert((-2 * p) * l.units() == (2 * p) * (-l.units())) by (nonlinear_arith);
    lemma_twice(x.units(), -l.units(), p);
    lemma_sqrt_miss(x);
    lemma_mul_miss(s, c);
    lemma_distance(s.units(), x.units(), -l.units(), p);
    assert(2 * l.units() * p == -(2 * (-l.units()) * p)) by (nonlinear_arith);
}

/// Twice a number is exact but for the last bit.
proof fn lemma_twice(x: int, n: int, p: int)
    requires
        p > 0,
        n > 0,
        size(x * p - (2 * p) * n) * 0x100_0000 <= size((2 * p) * n) + 0x80_0000 * p,
    ensures
        size(x - 2 * n) * 0x80_0000 <= 2 * n,
        x > 0,
{
    let h = x - 2 * n;
    lemma_size_product(h, p);
    let sh = size(h);
    assert(h * p == x * p - (2 * p) * n && (2 * p) * n > 0 && (2 * p) * n + 0x80_0000 * p == (2 * n
        + 0x80_0000) * p && (sh * p) * 0x100_0000 == (sh * 0x100_0000) * p) by (nonlinear_arith)
        requires
            h == x - 2 * n,
            p > 0,
            n > 0,
    ;
    lemma_cancel(sh * 0x100_0000, 2 * n + 0x80_0000, p);
}

/// The root of twice a number.
#[verifier::rlimit(60)]
#[verifier::spinoff_prover]
proof fn lemma_distance(s: int, x: int, n: int, p: int)
    requires
        p > 0,
        n > 0,
        size(x - 2 * n) * 0x80_0000 <= 2 * n,
        size(s * s - x * p) * 0x100_0000 <= 3 * (s * s),
    ensures
        size(s * s - 2 * n * p) * 0x20_0000 <= s * s,
{
    let (ss, xp, np) = (s * s, x * p, n * p);
    let h = x - 2 * n;
    lemma_size_product(h, p);
    let sh = size(h);
    assert(h * p == xp - 2 * np && 2 * n * p == 2 * np && (sh * p) * 0x80_0000 <= 2 * np && np > 0
        && ss >= 0) by (nonlinear_arith)
        requires
            h == x - 2 * n,
            xp == x * p,
            np == n * p,
            ss == s * s,
            sh * 0x80_0000 <= 2 * n,
            p > 0,
            n > 0,
    ;
}

} // verus!
