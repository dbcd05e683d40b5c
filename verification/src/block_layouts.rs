//! Where the blocks of quantized tensors hold their elements, and what these are, up to
//! rounding.
use crate::bytes::signed;
use crate::float::{of_int, F32};
use crate::float_errors::{
    lemma_cancel, lemma_mul_miss, lemma_size_product, lemma_sub_miss, lemma_unit, size, unit,
};
use crate::gguf_blocks::{
    bit_weight, half_at, min_k4, q4_k_at, q5_k_at, q6_k_at, scale_k4, };
use crate::split_laws::lemma_exact_count;
use crate::sum_errors::{lemma_mul_parts, lemma_sub_parts};
use vstd::arithmetic::power2::{lemma2_to64, pow2};
use vstd::prelude::*;

verus! {

/// `y` is `q` times `sc` times the scale, less `mn` times the least; up to rounding.
pub open spec fn is_level(y: F32, scale: F32, sc: int, q: int, least: F32, mn: int) -> bool {
    y.finite_spec() ==> {
        let a = scale.units() * sc * q;
        let b = least.units() * mn;
        size(y.units() - (a - b)) * 0x20_0000 <= size(a) + size(b) + 0x2000_0000
    }
}

/// The weight of a bit is a power of two.
proof fn lemma_bit_weight(s: int)
    requires
        0 <= s < 8,
    ensures
        bit_weight(s) == pow2(s as nat),
{
    lemma2_to64();
}

/// A number times a whole number.
proof fn lemma_multiple(x: F32, n: int)
    requires
        -0x100_0000 < n < 0x100_0000,
        x.mul_spec(of_int(n)).finite_spec(),
    ensures
        x.finite_spec(),
        size(x.mul_spec(of_int(n)).units() - x.units() * n) * 0x100_0000 <= size(x.units() * n)
            + 0x80_0000,
{
    lemma_unit();
    lemma_mul_parts(x, of_int(n));
    lemma_exact_whole(n);
    lemma_mul_miss(x, of_int(n));
    let (p, a, v) = (unit(), x.units(), x.mul_spec(of_int(n)).units());
    let an = a * n;
    let h = v - an;
    lemma_size_product(h, p);
    lemma_size_product(an, p);
    let (sh, sn) = (size(h), size(an));
    assert(a * (n * p) == an * p && h * p == v * p - an * p && (sh * p) * 0x100_0000 == (sh
        * 0x100_0000) * p && sn * p + 0x80_0000 * p == (sn + 0x80_0000) * p) by (nonlinear_arith)
        requires
            an == a * n,
            h == v - an,
    ;
    lemma_cancel(sh * 0x100_0000, sn + 0x80_0000, p);
}

/// Whole numbers below 2^24 are held exactly, with their signs.
proof fn lemma_exact_whole(n: int)
    requires
        -0x100_0000 < n < 0x100_0000,
    ensures
        of_int(n).finite_spec(),
        of_int(n).units() == n * unit(),
{
    if n >= 0 {
        lemma_exact_count(n);
    } else {
        lemma_exact_count(-n);
        reveal(of_int);
        let p = unit();
        assert(-(-n * p) == n * p) by (nonlinear_arith);
    }
}

/// The parts of one level.
#[verifier::rlimit(60)]
#[verifier::spinoff_prover]
proof fn lemma_level(y: int, x1: int, x2: int, x3: int, a: int, q: int, b: int)
    requires
        -64 <= q <= 64,
        size(x1 - a) * 0x100_0000 <= size(a) + 0x80_0000,
        size(x2 - x1 * q) * 0x100_0000 <= size(x1 * q) + 0x80_0000,
        size(x3 - b) * 0x100_0000 <= size(b) + 0x80_0000,
        size(y - (x2 - x3)) * 0x100_0000 <= size(x2 - x3),
    ensures
        size(y - (a * q - b)) * 0x20_0000 <= size(a * q) + size(b) + 0x2000_0000,
{
    let (aq, xq) = (a * q, x1 * q);
    let h = x1 - a;
    lemma_size_product(h, q);
    lemma_size_product(a, q);
    let (sh, sq, sa) = (size(h), size(q), size(a));
    assert(h * q == xq - aq) by (nonlinear_arith)
        requires
            h == x1 - a,
            xq == x1 * q,
            aq == a * q,
    ;
    assert((sh * sq) * 0x100_0000 <= sa * sq + 0x80_0000 * sq) by (nonlinear_arith)
        requires
            sh * 0x100_0000 <= sa + 0x80_0000,
            sq >= 0,
    ;
}

/// A level of two factors and a least.
proof fn lemma_two_factors(y: F32, scale: F32, sc: int, q: int, least: F32, mn: int)
    requires
        y == scale.mul_spec(of_int(sc)).mul_spec(of_int(q)).sub_spec(least.mul_spec(of_int(mn))),
        0 <= sc < 64,
        0 <= q < 64,
        0 <= mn < 64,
    ensures
        is_level(y, scale, sc, q, least, mn),
{
    if y.finite_spec() {
        let x1 = scale.mul_spec(of_int(sc));
        let x2 = x1.mul_spec(of_int(q));
        let x3 = least.mul_spec(of_int(mn));
        lemma_sub_parts(x2, x3);
        lemma_mul_parts(x1, of_int(q));
        lemma_multiple(x1, q);
        lemma_multiple(scale, sc);
        lemma_multiple(least, mn);
        lemma_sub_miss(x2, x3);
        lemma_level(
            y.units(),
            x1.units(),
            x2.units(),
            x3.units(),
            scale.units() * sc,
            q,
            least.units() * mn,
        );
    }
}

/// Packed scales and minima have six bits.
proof fn lemma_six_bits(q: Seq<u8>, p: int, j: int)
    requires
        0 <= j < 8,
    ensures
        0 <= scale_k4(q, p, j) < 64,
        0 <= min_k4(q, p, j) < 64,
{
}

/// A block of Q4_K holds its elements in four pairs of sub-blocks; a pair shares 32 bytes,
/// with the first sub-block in the lower halves and the second in the upper ones.
#[verifier::rlimit(60)]
#[verifier::spinoff_prover]
pub proof fn q4_k_blocks_hold_pairs_of_sub_blocks(raw: Seq<u8>, b: int, j: int, l: int)
    requires
        0 <= b,
        0 <= j < 4,
        0 <= l < 32,
    ensures
        ({
            let p = 144 * b;
            let byte = raw[p + 16 + 32 * j + l] as int;
            let (d, least) = (half_at(raw, p), half_at(raw, p + 2));
            let first = q4_k_at(raw, 256 * b + 64 * j + l);
            let second = q4_k_at(raw, 256 * b + 64 * j + 32 + l);
            &&& is_level(
                first,
                d,
                scale_k4(raw, p + 4, 2 * j),
                byte % 16,
                least,
                min_k4(raw, p + 4, 2 * j),
            )
            &&& is_level(
                second,
                d,
                scale_k4(raw, p + 4, 2 * j + 1),
                byte / 16,
                least,
                min_k4(raw, p + 4, 2 * j + 1),
            )
        }),
{
    let p = 144 * b;
    let byte = raw[p + 16 + 32 * j + l] as int;
    let (d, least) = (half_at(raw, p), half_at(raw, p + 2));
    lemma_six_bits(raw, p + 4, 2 * j);
    lemma_six_bits(raw, p + 4, 2 * j + 1);
    let i = 256 * b + 64 * j + l;
    assert(i / 256 == b && i % 256 / 32 == 2 * j && i % 256 / 64 == j && i % 32 == l && i % 64 == l);
    lemma_two_factors(
        q4_k_at(raw, i),
        d,
        scale_k4(raw, p + 4, 2 * j),
        byte % 16,
        least,
        min_k4(raw, p + 4, 2 * j),
    );
    let k = i + 32;
    assert(k / 256 == b && k % 256 / 32 == 2 * j + 1 && k % 256 / 64 == j && k % 32 == l && k % 64
        == l + 32);
    lemma_two_factors(
        q4_k_at(raw, k),
        d,
        scale_k4(raw, p + 4, 2 * j + 1),
        byte / 16,
        least,
        min_k4(raw, p + 4, 2 * j + 1),
    );
}

/// A block of Q5_K is one of Q4_K with a fifth bit: 32 bytes hold those of all sub-blocks,
/// from the lowest bit on.
#[verifier::rlimit(60)]
#[verifier::spinoff_prover]
pub proof fn q5_k_blocks_have_a_fifth_bit(raw: Seq<u8>, b: int, j: int, l: int)
    requires
        0 <= b,
        0 <= j < 4,
        0 <= l < 32,
    ensures
        ({
            let p = 176 * b;
            let byte = raw[p + 48 + 32 * j + l] as int;
            let bits = raw[p + 16 + l] as int;
            let (d, least) = (half_at(raw, p), half_at(raw, p + 2));
            let first = q5_k_at(raw, 256 * b + 64 * j + l);
            let second = q5_k_at(raw, 256 * b + 64 * j + 32 + l);
            &&& is_level(
                first,
                d,
                scale_k4(raw, p + 4, 2 * j),
                byte % 16 + 16 * (bits / (pow2((2 * j) as nat) as int) % 2),
                least,
                min_k4(raw, p + 4, 2 * j),
            )
            &&& is_level(
                second,
                d,
                scale_k4(raw, p + 4, 2 * j + 1),
                byte / 16 + 16 * (bits / (pow2((2 * j + 1) as nat) as int) % 2),
                least,
                min_k4(raw, p + 4, 2 * j + 1),
            )
        }),
{
    let p = 176 * b;
    let byte = raw[p + 48 + 32 * j + l] as int;
    let bits = raw[p + 16 + l] as int;
    let (d, least) = (half_at(raw, p), half_at(raw, p + 2));
    lemma_six_bits(raw, p + 4, 2 * j);
    lemma_six_bits(raw, p + 4, 2 * j + 1);
    lemma_bit_weight(2 * j);
    lemma_bit_weight(2 * j + 1);
    let i = 256 * b + 64 * j + l;
    assert(i / 256 == b && i % 256 / 32 == 2 * j && i % 256 / 64 == j && i % 32 == l && i % 64 == l);
    lemma_two_factors(
        q5_k_at(raw, i),
        d,
        scale_k4(raw, p + 4, 2 * j),
        byte % 16 + 16 * (bits / bit_weight(2 * j) % 2),
        least,
        min_k4(raw, p + 4, 2 * j),
    );
    let k = i + 32;
    assert(k / 256 == b && k % 256 / 32 == 2 * j + 1 && k % 256 / 64 == j && k % 32 == l && k % 64
        == l + 32);
    lemma_two_factors(
        q5_k_at(raw, k),
        d,
        scale_k4(raw, p + 4, 2 * j + 1),
        byte / 16 + 16 * (bits / bit_weight(2 * j + 1) % 2),
        least,
        min_k4(raw, p + 4, 2 * j + 1),
    );
}

/// The place of an element in halves, runs and sixteens.
proof fn lemma_run_place(b: int, h: int, k: int, l: int)
    requires
        0 <= b,
        0 <= h < 2,
        0 <= k < 4,
        0 <= l < 32,
    ensures
        ({
            let i = 256 * b + 128 * h + 32 * k + l;
            &&& i / 256 == b
            &&& i % 256 / 128 == h
            &&& i % 128 / 32 == k
            &&& i % 32 == l
            &&& i % 64 == 32 * (k % 2) + l
            &&& i % 128 == 32 * k + l
            &&& i % 256 / 16 == 8 * h + 2 * k + l / 16
        }),
{
}

/// The product of a scale, a signed scale and a level.
proof fn lemma_three_factors(d: F32, sc: int, q: int)
    requires
        -128 <= sc < 128,
        -64 <= q <= 64,
    ensures
        ({
            let y = d.mul_spec(of_int(sc)).mul_spec(of_int(q));
            let a = d.units() * sc * q;
            y.finite_spec() ==> size(y.units() - a) * 0x20_0000 <= size(a) + 0x2000_0000
        }),
{
    let x1 = d.mul_spec(of_int(sc));
    let y = x1.mul_spec(of_int(q));
    if y.finite_spec() {
        lemma_mul_parts(x1, of_int(q));
        lemma_multiple(x1, q);
        lemma_multiple(d, sc);
        lemma_level(y.units(), x1.units(), y.units(), 0, d.units() * sc, q, 0);
    }
}

/// A block of Q6_K holds its elements in two halves of four runs of 32. The first two runs
/// of a half have their lower four bits in the lower halves of 64 bytes, the other two in
/// the upper halves; the upper two bits of all four share 32 bytes. Each sixteen elements
/// have a signed scale.
#[verifier::rlimit(60)]
#[verifier::spinoff_prover]
pub proof fn q6_k_blocks_hold_runs_of_levels(raw: Seq<u8>, b: int, h: int, k: int, l: int)
    requires
        0 <= b,
        0 <= h < 2,
        0 <= k < 4,
        0 <= l < 32,
    ensures
        ({
            let p = 210 * b;
            let y = q6_k_at(raw, 256 * b + 128 * h + 32 * k + l);
            let byte = raw[p + 64 * h + 32 * (k % 2) + l] as int;
            let low = if k < 2 {
                byte % 16
            } else {
                byte / 16
            };
            let high = raw[p + 128 + 32 * h + l] as int / (pow2((2 * k) as nat) as int) % 4;
            let sc = signed(raw[p + 192 + 8 * h + 2 * k + l / 16] as int, 0x100);
            y.finite_spec() ==> {
                let a = half_at(raw, p + 208).units() * sc * (low + 16 * high - 32);
                size(y.units() - a) * 0x20_0000 <= size(a) + 0x2000_0000
            }
        }),
{
    let p = 210 * b;
    let i = 256 * b + 128 * h + 32 * k + l;
    let y = q6_k_at(raw, i);
    let byte = raw[p + 64 * h + 32 * (k % 2) + l] as int;
    let low = if k < 2 {
        byte % 16
    } else {
        byte / 16
    };
    let high = raw[p + 128 + 32 * h + l] as int / bit_weight(2 * k) % 4;
    let sc = signed(raw[p + 192 + 8 * h + 2 * k + l / 16] as int, 0x100);
    lemma_bit_weight(2 * k);
    lemma_run_place(b, h, k, l);
    let q = low + 16 * high - 32;
    let d = half_at(raw, p + 208);
    assert(y == d.mul_spec(of_int(sc)).mul_spec(of_int(q)));
    lemma_three_factors(d, sc, q);
}

} // verus!
