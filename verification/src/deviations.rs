//! What a fitted normalizer is for: means and deviations are those of the columns,
//! and normalized numbers count deviations from the mean.
use crate::float::{
    lemma_code, lemma_div_finite, lemma_round_exists, of_int, F32, ONE_CODE,
};
use crate::float_errors::{
    lemma_add_miss, lemma_add_sign, lemma_cancel, lemma_div_miss, lemma_mul_miss, lemma_negated,
    lemma_of_int_miss, lemma_order, lemma_sqrt_miss, lemma_sub_miss, lemma_unit, lemma_value, size,
    unit,
};
use crate::normalizer::{
    deviation, deviation_of, mean_of, spread, squared_distances, standard, Normalizer,
};
use crate::ops::{column_sum, sum_of};
use crate::softmax_shares::exact_sum;
use crate::sum_errors::{
    exact_sizes, exact_spread, lemma_add_parts, lemma_deviation, lemma_div_parts, lemma_over_count,
    lemma_sub_parts, lemma_sum_miss,
};
use crate::tensor::Tensor;
use vstd::arithmetic::power2::{lemma2_to64, lemma_pow2_adds, lemma_pow2_pos, pow2};
use vstd::prelude::*;

verus! {

/// The numbers of column `j`, from the first row to the last.
pub open spec fn column(x: Tensor, j: int) -> Seq<F32> {
    Seq::new(x.shape@[0] as nat, |i: int| x.at_spec(i, j))
}

/// The count times `mean` is the sum of the numbers, up to rounding.
pub open spec fn is_mean(v: Seq<F32>, mean: F32) -> bool {
    let n = v.len() as int;
    mean.finite_spec() && size(mean.units() * n - exact_sum(v)) * 0x20_0000 <= (n + 8) * exact_sizes(v)
        + 0x40_0000 * n
}

/// The count times the square of `std` is the sum of squared distances to `mean`, up
/// to rounding.
pub open spec fn is_deviation(v: Seq<F32>, mean: F32, std: F32) -> bool {
    let n = v.len() as int;
    let t = exact_spread(v, mean);
    &&& std.finite_spec()
    &&& std.units() >= 0
    &&& size((std.units() * std.units()) * n - t) * 0x40_0000 <= (n + 8) * t + n * (0x100_0000
        * unit())
}

/// The mean squared distance to `mean` is less than 2^-50.
pub open spec fn hardly_varies(v: Seq<F32>, mean: F32) -> bool {
    exact_spread(v, mean) * 0x4_0000_0000_0000 <= v.len() * (unit() * unit())
}

/// A column sum is the sum of the column.
proof fn lemma_column_sum(x: Tensor, j: int, n: nat)
    requires
        n <= x.shape@[0],
        x.is_matrix(),
    ensures
        column_sum(x.data@, x.shape@[1] as int, j, n) == sum_of(column(x, j).take(n as int)),
    decreases n,
{
    let c = column(x, j);
    if n > 0 {
        lemma_column_sum(x, j, (n - 1) as nat);
        assert(c.take(n as int).drop_last() =~= c.take(n - 1));
        assert(c.take(n as int).last() == x.at_spec(n - 1, j));
    } else {
        assert(c.take(0).len() == 0);
    }
}

/// The squared distances of numbers.
spec fn distances(v: Seq<F32>, mean: F32) -> Seq<F32> {
    Seq::new(v.len(), |i: int| v[i].sub_spec(mean).mul_spec(v[i].sub_spec(mean)))
}

/// The spread of a column is the sum of its squared distances.
proof fn lemma_spread(x: Tensor, j: int, mean: F32, n: nat)
    requires
        n <= x.shape@[0],
        x.is_matrix(),
    ensures
        spread(x.data@, x.shape@[1] as int, j, mean, n) == sum_of(
            distances(column(x, j).take(n as int), mean),
        ),
    decreases n,
{
    let c = column(x, j);
    let d = distances(c.take(n as int), mean);
    if n > 0 {
        lemma_spread(x, j, mean, (n - 1) as nat);
        assert(d.drop_last() =~= distances(c.take(n - 1), mean));
        assert(c.take(n as int)[n - 1] == x.at_spec(n - 1, j));
    } else {
        assert(d.len() == 0);
    }
}

/// Means.
#[verifier::rlimit(60)]
#[verifier::spinoff_prover]
pub(crate) proof fn lemma_mean(v: Seq<F32>)
    requires
        0 < v.len() <= 0x10_0000,
        sum_of(v).div_spec(of_int(v.len() as int)).finite_spec(),
    ensures
        is_mean(v, sum_of(v).div_spec(of_int(v.len() as int))),
{
    let n = v.len() as int;
    let mean = sum_of(v).div_spec(of_int(n));
    lemma_over_count(sum_of(v), n);
    lemma_sum_miss(v);
    let a = exact_sizes(v);
    let na = n * a;
    assert((n + 8) * a == na + 8 * a) by (nonlinear_arith)
        requires
            na == n * a,
    ;
    assert(0 <= na <= 0x10_0000 * a) by (nonlinear_arith)
        requires
            na == n * a,
            0 <= n <= 0x10_0000,
            a >= 0,
    ;
    let u = sum_of(v).units();
    assert(size(u) <= 2 * a);
}

/// A number below 1e-8 is below 2^123 units.
proof fn lemma_least(s: F32)
    requires
        s.finite_spec(),
        s.units() >= 0,
        s.lt_spec(F32 { bits: 0x322b_cc77 }),
    ensures
        (s.units() * s.units()) * 0x10_0000_0000_0000 <= unit() * unit(),
{
    lemma2_to64();
    lemma_code(0xab_cc77, 99);
    let least = F32 { bits: 0x322b_cc77 };
    assert(99 * 0x80_0000 + 0xab_cc77 == 0x322b_cc77) by (nonlinear_arith);
    lemma_order(s, least);
    lemma_pow2_pos(99);
    lemma_pow2_adds(24, 99);
    lemma_pow2_adds(123, 26);
    lemma_pow2_adds(26, 26);
    let (a, b) = (s.units(), pow2(123) as int);
    assert(least.units() <= b) by (nonlinear_arith)
        requires
            least.units() == 0xab_cc77 * pow2(99),
            b == 0x100_0000 * pow2(99),
            pow2(99) > 0,
    ;
    let p = unit();
    assert(p == b * 0x400_0000);
    assert((a * a) * 0x10_0000_0000_0000 <= p * p) by (nonlinear_arith)
        requires
            0 <= a <= b,
            p == b * 0x400_0000,
    ;
}

/// A column with a small deviation hardly varies.
#[verifier::rlimit(60)]
#[verifier::spinoff_prover]
proof fn lemma_hardly(v: Seq<F32>, mean: F32, s: F32)
    requires
        0 < v.len() <= 0x10_0000,
        is_deviation(v, mean, s),
        exact_spread(v, mean) >= 0,
        (s.units() * s.units()) * 0x10_0000_0000_0000 <= unit() * unit(),
    ensures
        hardly_varies(v, mean),
{
    lemma2_to64();
    let p = unit();
    let n = v.len() as int;
    let t = exact_spread(v, mean);
    let ss = s.units() * s.units();
    let (nt, np, npp) = (n * t, n * p, n * (p * p));
    assert((n + 8) * t == nt + 8 * t && n * (0x100_0000 * p) == 0x100_0000 * np && nt <= 0x10_0000 * t)
        by (nonlinear_arith)
        requires
            nt == n * t,
            np == n * p,
            0 < n <= 0x10_0000,
            t >= 0,
    ;
    assert((ss * n) * 0x10_0000_0000_0000 <= npp) by (nonlinear_arith)
        requires
            ss * 0x10_0000_0000_0000 <= p * p,
            npp == n * (p * p),
            n > 0,
    ;
    lemma_pow2_adds(64, 85);
    lemma_pow2_adds(32, 53);
    lemma_pow2_pos(53);
    lemma_pow2_pos(85);
    assert(p >= 0x1_0000_0000_0000_0000) by (nonlinear_arith)
        requires
            p == pow2(64) * pow2(85),
            pow2(64) == 0x1_0000_0000_0000_0000,
            pow2(85) >= 1,
    ;
    assert(np * 0x1_0000_0000_0000_0000 <= npp) by (nonlinear_arith)
        requires
            np == n * p,
            npp == n * (p * p),
            p >= 0x1_0000_0000_0000_0000,
            n > 0,
    ;
}

/// Every mean of a fitted normalizer is the mean of its column, and every deviation
/// squared is the mean squared distance to it; a column that hardly varies may have
/// one in place of its deviation.
pub proof fn fitted_deviations_are_those_of_the_columns(n: Normalizer, x: Tensor, j: int)
    requires
        x.is_matrix(),
        n.fits(x),
        0 < x.shape@[0] <= 0x10_0000,
        0 <= j < x.shape@[1],
        n.stds@[j].finite_spec(),
    ensures
        is_mean(column(x, j), n.means@[j]),
        ({
            let one = n.stds@[j] == (F32 { bits: ONE_CODE });
            is_deviation(column(x, j), n.means@[j], n.stds@[j]) || one && hardly_varies(
                column(x, j),
                n.means@[j],
            )
        }),
{
    reveal(F32::sqrt_spec);
    let rows = x.shape@[0] as int;
    let v = column(x, j);
    let mean = n.means@[j];
    assert(v.take(rows) =~= v);
    lemma_column_sum(x, j, rows as nat);
    lemma_spread(x, j, mean, rows as nat);
    let q = distances(v, mean);
    let s = sum_of(q).div_spec(of_int(rows)).sqrt_spec();
    assert(n.stds@[j] == deviation(sum_of(q), of_int(rows)));
    if s.lt_spec(F32 { bits: 0x322b_cc77 }) {
        lemma_root_below(sum_of(q).div_spec(of_int(rows)), F32 { bits: 0x322b_cc77 });
    }
    assert(s.finite_spec());
    lemma_deviation(v, mean, q);
    lemma_mean(v);
    if s.lt_spec(F32 { bits: 0x322b_cc77 }) {
        lemma_least(s);
        lemma_hardly(v, mean, s);
    }
}

/// As `fitted_deviations_are_those_of_the_columns`, for the numbers to predict.
pub proof fn fitted_targets_have_their_deviation(v: Seq<F32>)
    requires
        0 < v.len() <= 0x10_0000,
        deviation_of(v).finite_spec(),
        mean_of(v).finite_spec(),
    ensures
        is_mean(v, mean_of(v)),
        ({
            let least = deviation_of(v) == (F32 { bits: 0x322b_cc77 });
            is_deviation(v, mean_of(v), deviation_of(v)) || least && hardly_varies(v, mean_of(v))
        }),
{
    reveal(F32::sqrt_spec);
    let mean = mean_of(v);
    let q = distances(v, mean);
    assert(squared_distances(v, mean) =~= q);
    let n = v.len() as int;
    let s = sum_of(q).div_spec(of_int(n)).sqrt_spec();
    lemma_mean(v);
    lemma_finite_spread(v, mean, q);
    lemma_deviation(v, mean, q);
    let least = F32 { bits: 0x322b_cc77 };
    if s.lt_spec(least) {
        lemma_least(s);
        lemma_hardly(v, mean, s);
    }
}

/// A root that is below a number is finite.
proof fn lemma_root_below(v: F32, least: F32)
    requires
        v.sqrt_spec().lt_spec(least),
        least.finite_spec(),
    ensures
        v.sqrt_spec().finite_spec(),
{
    reveal(F32::sqrt_spec);
    if v.finite_spec() && !v.zero_spec() && !v.neg_spec() {
        lemma_value(v);
        lemma_sqrt_miss(v);
    }
}

/// The square of a difference of finite numbers is a number that is not negative.
proof fn lemma_square_sign(a: F32, b: F32)
    requires
        a.finite_spec(),
        b.finite_spec(),
    ensures
        ({
            let q = a.sub_spec(b).mul_spec(a.sub_spec(b));
            !q.nan_spec() && !q.neg_spec()
        }),
{
    reveal(F32::mul_spec);
    lemma_negated(b);
    lemma_add_sign(a, b.negated());
    let d = a.sub_spec(b);
    if d.finite_spec() {
        lemma_value(d);
        lemma_pow2_pos(149);
        assert(d.mag() * d.mag() >= 0) by (nonlinear_arith);
        lemma_round_exists(d.mag() * d.mag(), pow2(149) as int);
    }
}

/// A sum of numbers that are not negative is one.
proof fn lemma_sum_stays(q: Seq<F32>)
    requires
        forall|i: int| 0 <= i < q.len() ==> !(#[trigger] q[i]).nan_spec() && !q[i].neg_spec(),
    ensures
        !sum_of(q).nan_spec(),
        sum_of(q).key() >= 0,
        !sum_of(q).neg_spec(),
    decreases q.len(),
{
    if q.len() > 0 {
        reveal(F32::add_spec);
        let init = q.drop_last();
        assert forall|i: int| 0 <= i < init.len() implies !(#[trigger] init[i]).nan_spec()
            && !init[i].neg_spec() by {
            assert(init[i] == q[i]);
        }
        lemma_sum_stays(init);
        let (a, b) = (sum_of(init), q.last());
        assert(q[q.len() - 1] == b);
        if a.finite_spec() && b.finite_spec() {
            lemma_value(a);
            lemma_value(b);
            lemma_round_exists(a.units() + b.units(), 1);
        }
    }
}

/// The root of a mean of squares is finite where the deviation and the mean are.
proof fn lemma_finite_spread(v: Seq<F32>, mean: F32, q: Seq<F32>)
    requires
        q == distances(v, mean),
        0 < v.len() <= 0x10_0000,
        mean == mean_of(v),
        mean.finite_spec(),
        deviation_of(v).finite_spec(),
    ensures
        sum_of(q).div_spec(of_int(v.len() as int)).sqrt_spec().finite_spec(),
{
    let n = v.len() as int;
    let least = F32 { bits: 0x322b_cc77 };
    assert(squared_distances(v, mean) =~= q);
    lemma_over_count(sum_of(v), n);
    lemma_sum_miss(v);
    assert forall|i: int| 0 <= i < q.len() implies !(#[trigger] q[i]).nan_spec() && !q[i].neg_spec() by {
        assert(v[i].finite_spec());
        lemma_square_sign(v[i], mean);
    }
    lemma_sum_stays(q);
    lemma_of_int_miss(n);
    let a = sum_of(q);
    let w = a.div_spec(of_int(n));
    assert(!w.nan_spec() && !w.neg_spec()) by {
        reveal(F32::div_spec);
        lemma_unit();
        if a.finite_spec() {
            lemma_value(of_int(n));
            lemma_div_finite(a, of_int(n));
        }
    }
    let s = w.sqrt_spec();
    assert(!s.nan_spec()) by {
        reveal(F32::sqrt_spec);
        if w.finite_spec() && !w.zero_spec() {
            lemma_value(w);
            lemma_sqrt_miss(w);
        }
    }
    if s.lt_spec(least) {
        lemma_root_below(w, least);
    }
}

/// A normalized number counts deviations: times the deviation it is the distance to
/// the mean, up to rounding.
#[verifier::rlimit(60)]
#[verifier::spinoff_prover]
pub proof fn normalized_numbers_count_deviations(x: F32, mean: F32, std: F32)
    requires
        standard(x, mean, std).finite_spec(),
        std.finite_spec(),
    ensures
        x.finite_spec(),
        mean.finite_spec(),
        !std.zero_spec(),
        ({
            let d = x.units() - mean.units();
            size(standard(x, mean, std).units() * std.units() - d * unit()) * 0x40_0000 <= size(d)
                * unit() + 0x40_0000 * size(std.units())
        }),
{
    lemma_unit();
    let e = x.sub_spec(mean);
    lemma_div_parts(e, std);
    lemma_sub_parts(x, mean);
    lemma_sub_miss(x, mean);
    lemma_div_miss(e, std);
    lemma_value(std);
    let p = unit();
    let d = x.units() - mean.units();
    let f = e.units();
    let g = f - d;
    assert(size(g * p) * 0x100_0000 <= size(d) * p) by {
        let sd = size(d);
        assert(-(sd * p) <= (g * 0x100_0000) * p && (g * 0x100_0000) * p <= sd * p)
            by (nonlinear_arith)
            requires
                -sd <= g * 0x100_0000 <= sd,
                p > 0,
        ;
        assert((g * 0x100_0000) * p == (g * p) * 0x100_0000) by (nonlinear_arith);
    }
    assert(g * p == f * p - d * p) by (nonlinear_arith)
        requires
            g == f - d,
    ;
    assert(size(f) <= 2 * size(d));
    assert(size(f) * p <= 2 * (size(d) * p)) by (nonlinear_arith)
        requires
            size(f) <= 2 * size(d),
            p > 0,
    ;
    let sd = size(d) * p;
    assert(sd >= 0) by (nonlinear_arith)
        requires
            sd == size(d) * p,
            size(d) >= 0,
            p > 0,
    ;
}

/// A number that is normalized and taken back is the number again, up to rounding.
#[verifier::rlimit(60)]
#[verifier::spinoff_prover]
pub proof fn targets_are_taken_back(v: F32, mean: F32, std: F32)
    requires
        std.finite_spec(),
        standard(v, mean, std).finite_spec(),
        standard(v, mean, std).mul_spec(std).add_spec(mean).finite_spec(),
    ensures
        ({
            let r = standard(v, mean, std).mul_spec(std).add_spec(mean);
            size(r.units() - v.units()) * 0x20_0000 <= 2 * size(v.units()) + 2 * size(mean.units())
                + 0x40_0000 * (size(std.units()) / unit() + 2)
        }),
{
    lemma_unit();
    let y = standard(v, mean, std);
    normalized_numbers_count_deviations(v, mean, std);
    let z = y.mul_spec(std);
    lemma_add_parts(z, mean);
    lemma_mul_miss(y, std);
    lemma_add_miss(z, mean);
    let p = unit();
    let (a, m, s) = (v.units(), mean.units(), std.units());
    let d = a - m;
    let ys = y.units() * s;
    let b = z.units();
    let dp = d * p;
    let sd = size(d);
    let sdp = sd * p;
    let ss = size(s);
    assert(sdp >= 0 && size(dp) == sdp) by (nonlinear_arith)
        requires
            sdp == sd * p,
            dp == d * p,
            sd == d && d >= 0 || sd == -d && d <= 0,
            p > 0,
            size(dp) == dp && dp >= 0 || size(dp) == -dp && dp <= 0,
    ;
    // b p against d p.
    let bp = b * p;
    assert(size(bp - ys) * 0x100_0000 <= size(ys) + 0x80_0000 * p);
    assert(size(ys - dp) * 0x40_0000 <= sdp + 0x40_0000 * ss);
    assert(size(ys) <= 2 * sdp + ss);
    let g = b - d;
    assert(g * p == bp - dp) by (nonlinear_arith)
        requires
            g == b - d,
            bp == b * p,
            dp == d * p,
    ;
    assert(size(g * p) * 0x40_0000 <= 2 * sdp + 0x40_0001 * ss + 0x20_0000 * p);
    // ss == w p + rest with rest < p.
    let w = ss / p;
    assert(ss <= (w + 1) * p && w >= 0) by (nonlinear_arith)
        requires
            w == ss / p,
            p > 0,
            ss >= 0,
    ;
    let sg = size(g);
    assert(size(g * p) == sg * p) by (nonlinear_arith)
        requires
            sg == g && g >= 0 || sg == -g && g <= 0,
            p > 0,
            size(g * p) == g * p && g * p >= 0 || size(g * p) == -(g * p) && g * p <= 0,
    ;
    let most = 2 * sd + 0x40_0001 * (w + 1) + 0x20_0000;
    assert(2 * sdp + 0x40_0001 * ((w + 1) * p) + 0x20_0000 * p == most * p) by (nonlinear_arith)
        requires
            most == 2 * sd + 0x40_0001 * (w + 1) + 0x20_0000,
            sdp == sd * p,
    ;
    assert((sg * 0x40_0000) * p == (sg * p) * 0x40_0000) by (nonlinear_arith);
    lemma_cancel(sg * 0x40_0000, most, p);
}

} // verus!
