//! How the rows of a table are divided into those to learn from and those held back.
use crate::csv::{held_back, CsvDataset};
use crate::float::{lemma_code, lemma_magnitude_increases, of_int, round, F32};
use crate::float_errors::{
    lemma_cancel, lemma_mul_miss, lemma_size_product, lemma_unit, lemma_value, positive, size, unit,
};
use crate::half::lemma_small_times_power;
use crate::rng::is_permutation;
use crate::rounding::lemma_round_at_most;
use vstd::arithmetic::power2::{lemma2_to64, lemma_pow2_adds, lemma_pow2_pos, pow2};
use vstd::prelude::*;

verus! {

/// `k` is the whole number nearest to the fraction of `n`, up to rounding, but one at
/// least.
pub open spec fn is_nearest_part(k: int, n: int, fraction: F32) -> bool {
    let p = unit();
    let nf = n * fraction.units();
    &&& 1 <= k <= n
    &&& k == 1 && nf <= p || size(2 * (k * p) - 2 * nf) * 0x80_0000 <= 0x80_0000 * p + nf + 0x80_0000
}

/// Every row of a table is in one of two parts, once: in some order of the rows the first
/// ones are held back, and the others are those to learn from.
pub open spec fn is_division(
    ds: CsvDataset,
    train: CsvDataset,
    held: CsvDataset,
    order: Seq<usize>,
) -> bool {
    let n = ds.rows@.len() as int;
    let k = held.rows@.len() as int;
    &&& is_permutation(order, n)
    &&& k + train.rows@.len() == n
    &&& forall|i: int| 0 <= i < k ==> (#[trigger] held.rows@[i]).same(ds.rows@[order[i] as int])
    &&& forall|i: int|
        0 <= i < train.rows@.len() ==> (#[trigger] train.rows@[i]).same(
            ds.rows@[order[k + i] as int],
        )
}

/// A whole number below 2^24 is held exactly.
pub(crate) proof fn lemma_exact_count(n: int)
    requires
        0 <= n < 0x100_0000,
    ensures
        of_int(n).finite_spec(),
        !of_int(n).neg_spec(),
        of_int(n).units() == n * unit(),
        round(n * pow2(149), 1) == of_int(n).code_spec(),
{
    reveal(of_int);
    lemma2_to64();
    lemma_unit();
    if n > 0 {
        lemma_small_times_power(n, 149, 24);
    } else {
        assert(0 * pow2(149) == 0) by (nonlinear_arith);
        lemma_code(0, 0);
        lemma_round_at_most(0, 1, 0);
    }
}

/// The nearest whole number.
proof fn lemma_nearest(x: F32)
    requires
        x.finite_spec(),
        !x.neg_spec(),
        x.units() <= 0x10_0000 * unit(),
    ensures
        ({
            let k = x.round_spec().int_spec(0, usize::MAX as int);
            &&& 0 <= k <= 0x10_0000
            &&& 2 * x.units() - unit() <= 2 * (k * unit()) <= 2 * x.units() + unit()
        }),
{
    reveal(F32::round_spec);
    lemma_unit();
    lemma_value(x);
    lemma2_to64();
    lemma_pow2_adds(1, 149);
    lemma_pow2_pos(149);
    let p = unit();
    let k = (2 * x.mag() + p) / (2 * p);
    let kp = k * p;
    assert(2 * kp <= 2 * x.mag() + p < 2 * kp + 2 * p && k >= 0) by (nonlinear_arith)
        requires
            k == (2 * x.mag() + p) / (2 * p),
            kp == k * p,
            p > 0,
            x.mag() >= 0,
    ;
    if k > 0x10_0000 {
        assert(kp >= 0x10_0001 * p) by (nonlinear_arith)
            requires
                kp == k * p,
                k >= 0x10_0001,
                p > 0,
        ;
    }
    lemma_exact_count(k);
    let y = x.round_spec();
    assert(y.code_spec() == of_int(k).code_spec() && !y.neg_spec());
    lemma_value(of_int(k));
    assert(y.mag() == kp);
    assert(kp / p == k) by (nonlinear_arith)
        requires
            kp == k * p,
            p > 0,
    ;
}

/// The rows that are held back are the fraction of all, to the nearest row, but one at
/// least.
pub proof fn the_rows_held_back_are_the_fraction(n: int, fraction: F32)
    requires
        0 < n <= 0x10_0000,
        positive(fraction),
        !fraction.neg_spec(),
        fraction.units() <= unit(),
    ensures
        is_nearest_part(held_back(n, fraction), n, fraction),
{
    lemma_unit();
    lemma_value(fraction);
    lemma_exact_count(n);
    let c = of_int(n);
    lemma_value(c);
    let x = c.mul_spec(fraction);
    let (p, f) = (unit(), fraction.units());
    let num = c.mag() * fraction.mag();
    let np = n * p;
    assert(0 <= num <= np * p && np <= 0x10_0000 * p) by (nonlinear_arith)
        requires
            num == c.mag() * fraction.mag(),
            c.mag() == np,
            np == n * p,
            0 <= fraction.mag() <= p,
            0 < n <= 0x10_0000,
            p > 0,
    ;
    assert(x.finite_spec() && !x.neg_spec() && x.mag() <= np) by {
        reveal(F32::mul_spec);
        lemma_round_at_most(num, p, c.code_spec());
        if x.code_spec() < c.code_spec() {
            lemma_magnitude_increases(x.code_spec(), c.code_spec());
        }
    }
    lemma_value(x);
    lemma_mul_miss(c, fraction);
    lemma_nearest(x);
    let k = x.round_spec().int_spec(0, usize::MAX as int);
    let nf = n * f;
    let h = x.units() - nf;
    lemma_size_product(h, p);
    let sh = size(h);
    assert(h * p == x.units() * p - np * f && np * f == nf * p && nf > 0 && nf * p > 0 && (sh * p)
        * 0x100_0000 == (sh * 0x100_0000) * p && nf * p + 0x80_0000 * p == (nf + 0x80_0000) * p)
        by (nonlinear_arith)
        requires
            h == x.units() - nf,
            nf == n * f,
            np == n * p,
            p > 0,
            n > 0,
            f > 0,
    ;
    lemma_cancel(sh * 0x100_0000, nf + 0x80_0000, p);
    let kp = k * p;
    if k > n {
        assert(kp >= np + p) by (nonlinear_arith)
            requires
                kp == k * p,
                np == n * p,
                k >= n + 1,
                p > 0,
        ;
    }
    if k < 1 {
        assert(kp == 0) by (nonlinear_arith)
            requires
                kp == k * p,
                k == 0,
        ;
        assert(2 * x.units() <= p);
        assert(nf <= p);
    }
}

} // verus!
