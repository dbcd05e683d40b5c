//! The numbers of int8 files and of int8-aware training are the same.
use crate::finf_weights::{held, int8_byte, vector_held, QPrec};
use crate::float::{
    lemma_code, lemma_div_finite, lemma_magnitude_increases, lemma_round_exact, lemma_round_exists,
    lemma_round_unique, magnitude, make, nearest, of_int, round, F32, INF_CODE,
};
use crate::index::{cell, lemma_cell};
use crate::ops::row_of;
use crate::quant::{
    abs_max, all_finite, int8_scale_of, lemma_abs_max, quantizable,
    scale_of_finite_is_nonnegative, signed_byte, snap, snapped, INT4_MAX_BITS, INT8_MAX_BITS,
};
use crate::rounding::{lemma_round_at_most, lemma_round_ordered};
use crate::train_ops::lemma_unsplit;
use vstd::arithmetic::power2::{lemma2_to64, lemma_pow2_adds, lemma_pow2_pos, pow2};
use vstd::prelude::*;

verus! {

/// Two numbers are the same, or both are zeros.
pub open spec fn same_number(a: F32, b: F32) -> bool {
    a == b || (a.zero_spec() && b.zero_spec())
}

/// The code of the integer `n`, which has `k + 1` binary digits.
spec fn int_code(n: int, k: int) -> int {
    (126 + k) * 0x80_0000 + n * pow2((23 - k) as nat)
}

/// Integers of few digits have a code of their own.
proof fn lemma_int_code(n: int, k: int)
    requires
        0 <= k <= 6,
        pow2(k as nat) <= n < 2 * pow2(k as nat),
    ensures
        0 < int_code(n, k) < INF_CODE,
        magnitude(int_code(n, k)) == n * pow2(149),
        (127 + k) * 0x80_0000 <= int_code(n, k) < (128 + k) * 0x80_0000,
{
    lemma2_to64();
    let a = pow2(k as nat) as int;
    let b = pow2((23 - k) as nat) as int;
    lemma_pow2_adds(k as nat, (23 - k) as nat);
    lemma_pow2_pos((23 - k) as nat);
    let q = n * b;
    assert(0x80_0000 <= q < 0x100_0000) by (nonlinear_arith)
        requires
            q == n * b,
            a * b == 0x80_0000,
            a <= n < 2 * a,
            b > 0,
    ;
    let e = 126 + k;
    lemma_code(q, e);
    lemma_pow2_adds((23 - k) as nat, e as nat);
    assert(q * pow2(e as nat) == n * pow2(149)) by (nonlinear_arith)
        requires
            q == n * b,
            b * pow2(e as nat) == pow2(149),
    ;
}

/// The number of binary digits of a positive level, less one.
proof fn lemma_digits(n: int) -> (k: int)
    requires
        0 < n <= 127,
    ensures
        0 <= k <= 6,
        pow2(k as nat) <= n < 2 * pow2(k as nat),
{
    lemma2_to64();
    if n >= 64 {
        6
    } else if n >= 32 {
        5
    } else if n >= 16 {
        4
    } else if n >= 8 {
        3
    } else if n >= 4 {
        2
    } else if n >= 2 {
        1
    } else {
        0
    }
}

/// Small integers round to themselves.
proof fn lemma_small_int(n: int)
    requires
        0 <= n <= 127,
    ensures
        0 <= round(n * pow2(149), 1) < INF_CODE,
        magnitude(round(n * pow2(149), 1)) == n * pow2(149),
        n == 0 <==> round(n * pow2(149), 1) == 0,
{
    lemma2_to64();
    if n == 0 {
        lemma_code(0, 0);
        assert(0 * pow2(149) == 0) by (nonlinear_arith);
        lemma_round_exact(0);
    } else {
        let k = lemma_digits(n);
        lemma_int_code(n, k);
        lemma_round_exact(int_code(n, k));
    }
}

/// The rounded and bounded quotient of the int8 grid.
pub open spec fn grid_level(v: F32, scale: F32) -> F32 {
    v.div_spec(scale).round_spec().clamp_spec(
        F32 { bits: INT8_MAX_BITS }.negated(),
        F32 { bits: INT8_MAX_BITS },
    )
}

/// A magnitude as a whole number, rounded half away from zero, up to a limit.
pub open spec fn bounded_whole(x: F32, limit: int) -> int {
    let n = (2 * x.mag() + pow2(149)) / pow2(150) as int;
    if x.inf_spec() || n > limit {
        limit
    } else {
        n
    }
}

/// The limits of the quantized kinds, as numbers.
pub open spec fn is_limit(lim: F32, limit: int) -> bool {
    ||| limit == 127 && lim == F32 { bits: INT8_MAX_BITS }
    ||| limit == 7 && lim == F32 { bits: INT4_MAX_BITS }
}

/// The number of a limit.
pub(crate) proof fn lemma_limit(lim: F32, limit: int)
    requires
        is_limit(lim, limit),
    ensures
        lim.finite_spec(),
        !lim.neg_spec(),
        lim.code_spec() > 0,
        lim.mag() == limit * pow2(149),
        round(limit * pow2(149), 1) == lim.code_spec(),
{
    lemma2_to64();
    let k = lemma_digits(limit);
    if limit == 127 {
        assert(k == 6);
    } else {
        assert(k == 2);
    }
    lemma_int_code(limit, k);
    assert(int_code(127, 6) == 0x42fe_0000);
    assert(int_code(7, 2) == 0x40e0_0000);
    lemma_round_exact(int_code(limit, k));
}

/// A number that is rounded and kept within a limit is an integer, and converts
/// to it.
pub(crate) proof fn lemma_bounded(x: F32, lim: F32, limit: int)
    requires
        !x.nan_spec(),
        is_limit(lim, limit),
    ensures
        ({
            let z = x.round_spec().clamp_spec(lim.negated(), lim);
            let n = z.int_spec(-128, 127);
            &&& 0 <= bounded_whole(x, limit) <= limit
            &&& z.finite_spec()
            &&& z.neg_spec() == x.neg_spec()
            &&& z.mag() == bounded_whole(x, limit) * pow2(149)
            &&& n == if x.neg_spec() {
                -bounded_whole(x, limit)
            } else {
                bounded_whole(x, limit)
            }
            &&& same_number(of_int(n), z)
        }),
{
    reveal(F32::round_spec);
    reveal(of_int);
    lemma_pow2_pos(149);
    lemma_pow2_pos(150);
    lemma_limit(lim, limit);
    let y = x.round_spec();
    let z = y.clamp_spec(lim.negated(), lim);
    let w = bounded_whole(x, limit);
    if x.finite_spec() {
        let n = (2 * x.mag() + pow2(149)) / pow2(150) as int;
        lemma_code(0, 0);
        lemma2_to64();
        if x.code_spec() > 0 {
            lemma_magnitude_increases(0, x.code_spec());
        }
        assert(n >= 0) by (nonlinear_arith)
            requires
                n == (2 * x.mag() + pow2(149)) / pow2(150) as int,
                x.mag() >= 0,
                pow2(150) > 0,
                pow2(149) > 0,
        ;
        let num = n * pow2(149);
        assert(num >= 0) by (nonlinear_arith)
            requires
                num == n * pow2(149),
                n >= 0,
                pow2(149) > 0,
        ;
        lemma_round_exists(num, 1);
        let c = round(num, 1);
        assert(y == make(x.neg_spec(), c));
        if n <= limit {
            lemma_small_int(n);
            assert(num <= limit * pow2(149)) by (nonlinear_arith)
                requires
                    num == n * pow2(149),
                    n <= limit,
                    pow2(149) > 0,
            ;
            lemma_round_ordered(num, limit * pow2(149), 1);
            assert(c <= lim.code_spec());
            assert(z == y);
        } else {
            assert(0 <= limit * pow2(149) <= num) by (nonlinear_arith)
                requires
                    num == n * pow2(149),
                    n > limit,
                    limit >= 0,
                    pow2(149) > 0,
            ;
            lemma_round_ordered(limit * pow2(149), num, 1);
            assert(c >= lim.code_spec());
        }
    } else {
        assert(y == x);
    }
    if x.inf_spec() || w == limit {
        assert(z == make(x.neg_spec(), lim.code_spec()));
    }
    assert(z.mag() == w * pow2(149));
    assert(w * pow2(149) / (pow2(149) as int) == w) by (nonlinear_arith)
        requires
            pow2(149) > 0,
    ;
    assert(z.whole() == w);
    lemma_small_int(w);
    assert(z.code_spec() == round(w * pow2(149), 1));
    assert(--w * pow2(149) == w * pow2(149)) by (nonlinear_arith);
}

/// A level on the int8 grid is an integer from -127 to 127, and converts to it.
proof fn lemma_level_is_whole(v: F32, scale: F32)
    requires
        v.finite_spec(),
        scale.finite_spec(),
        !scale.zero_spec(),
    ensures
        -128 <= grid_level(v, scale).int_spec(-128, 127) <= 127,
        same_number(of_int(grid_level(v, scale).int_spec(-128, 127)), grid_level(v, scale)),
        grid_level(v, scale).finite_spec(),
{
    lemma_div_finite(v, scale);
    lemma_bounded(v.div_spec(scale), F32 { bits: INT8_MAX_BITS }, 127);
}

/// The number of a byte is that of the grid.
proof fn lemma_byte_is_snap(v: F32, scale: F32)
    requires
        v.finite_spec(),
        scale.finite_spec(),
        !scale.zero_spec(),
    ensures
        same_number(
            of_int(signed_byte(int8_byte(v, scale) as int)).mul_spec(scale),
            snap(v, scale),
        ),
{
    lemma_level_is_whole(v, scale);
    let z = grid_level(v, scale);
    let n = z.int_spec(-128, 127);
    assert(signed_byte(int8_byte(v, scale) as int) == n);
    if of_int(n) != z {
        lemma_zero_product(of_int(n), scale);
        lemma_zero_product(z, scale);
    }
}

/// Zero times a finite number is zero.
pub(crate) proof fn lemma_zero_product(z: F32, s: F32)
    requires
        z.zero_spec(),
        s.finite_spec(),
    ensures
        z.mul_spec(s).zero_spec(),
{
    reveal(F32::mul_spec);
    lemma_code(0, 0);
    lemma2_to64();
    lemma_round_at_zero();
    assert(z.mag() * s.mag() == 0) by (nonlinear_arith)
        requires
            z.mag() == 0,
    ;
}

proof fn lemma_round_at_zero()
    ensures
        round(0, pow2(149) as int) == 0,
{
    lemma_pow2_pos(149);
    lemma_code(0, 0);
    lemma2_to64();
    lemma_magnitude_increases(0, 1);
    assert(nearest(0, pow2(149) as int, 0)) by {
        assert((magnitude(0) + magnitude(1)) * pow2(149) > 0) by (nonlinear_arith)
            requires
                magnitude(0) + magnitude(1) > 0,
                pow2(149) > 0,
        ;
    }
    lemma_round_unique(0, pow2(149) as int, 0);
}

/// The scale of finite elements is finite.
proof fn lemma_scale_finite(s: Seq<F32>)
    requires
        all_finite(s),
    ensures
        int8_scale_of(s).finite_spec(),
        !int8_scale_of(s).neg_spec(),
{
    reveal(F32::div_spec);
    scale_of_finite_is_nonnegative(s);
    lemma_abs_max(s);
    lemma2_to64();
    lemma_pow2_pos(149);
    lemma_int_code(127, 6);
    assert(int_code(127, 6) == 0x42fe_0000);
    let a = abs_max(s);
    let b = F32 { bits: INT8_MAX_BITS };
    let num = a.mag() * pow2(149);
    let den = b.mag();
    assert(den == 127 * pow2(149));
    lemma_code(0, 0);
    if a.code_spec() > 0 {
        lemma_magnitude_increases(0, a.code_spec());
    }
    let c = a.code_spec();
    assert(num >= 0 && den > 0 && num <= magnitude(c) * den) by (nonlinear_arith)
        requires
            num == a.mag() * pow2(149),
            den == 127 * pow2(149),
            a.mag() == magnitude(c),
            a.mag() >= 0,
            pow2(149) > 0,
    ;
    lemma_round_at_most(num, den, c);
}

/// Whether the elements have an int8 grid: all are zeros, or the scale is not
/// rounded down to zero.
pub open spec fn has_grid(s: Seq<F32>) -> bool {
    ||| (F32 { bits: 0 }).lt_spec(int8_scale_of(s))
    ||| forall|i: int| 0 <= i < s.len() ==> (#[trigger] s[i]).zero_spec()
}

/// An element of a row is written and read back as its point of the grid.
proof fn lemma_element(s: Seq<F32>, c: int)
    requires
        all_finite(s),
        has_grid(s),
        0 <= c < s.len(),
    ensures
        same_number(
            of_int(signed_byte(int8_byte(s[c], int8_scale_of(s)) as int)).mul_spec(int8_scale_of(s)),
            snapped(s)[c],
        ),
{
    let scale = int8_scale_of(s);
    lemma_scale_finite(s);
    assert(s[c].finite_spec());
    if (F32 { bits: 0 }).lt_spec(scale) {
        assert(!scale.zero_spec());
        lemma_byte_is_snap(s[c], scale);
    } else {
        assert(scale.zero_spec());
        assert(s[c].zero_spec());
        reveal(of_int);
        lemma_small_int(0);
        lemma_zero_product(of_int(0), scale);
    }
}

/// Int8-aware training sees the numbers of the int8 file: where every row of a
/// matrix has a grid, each weight that is read from an int8 file is the weight
/// that row-wise fake quantization leaves, but for the sign of zeros.
pub proof fn int8_matrices_hold_the_trained_numbers(data: Seq<F32>, rows: int, cols: int, r: int, c: int)
    requires
        quantizable(data),
        0 <= r < rows,
        0 <= c < cols,
        data.len() == rows * cols,
        has_grid(row_of(data, r, cols)),
    ensures
        same_number(
            held(data, rows, cols, true, QPrec::Int8).numbers(rows, cols)[cell(r, c, cols)],
            snapped(row_of(data, r, cols))[c],
        ),
{
    lemma_cell(r, c, rows, cols);
    lemma_unsplit(r, c, cols);
    let row = row_of(data, r, cols);
    assert(data.len() as int / rows == cols) by (nonlinear_arith)
        requires
            data.len() == rows * cols,
            rows > 0,
    ;
    assert(all_finite(row)) by {
        assert forall|i: int| 0 <= i < row.len() implies (#[trigger] row[i]).finite_spec() by {
            lemma_cell(r, i, rows, cols);
            assert(row[i] == data[cell(r, i, cols)]);
        }
    }
    assert(row[c] == data[cell(r, c, cols)]);
    lemma_element(row, c);
}

/// As `int8_matrices_hold_the_trained_numbers`, for a vector.
pub proof fn int8_vectors_hold_the_trained_numbers(data: Seq<F32>, i: int)
    requires
        quantizable(data),
        has_grid(data),
        0 <= i < data.len(),
    ensures
        same_number(vector_held(data, true, QPrec::Int8)[i], snapped(data)[i]),
{
    assert(i / data.len() as int == 0) by (nonlinear_arith)
        requires
            0 <= i < data.len(),
    ;
    lemma_element(data, i);
}

} // verus!
