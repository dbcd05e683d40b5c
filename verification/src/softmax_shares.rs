//! The weights of a softmax are shares: they lie between zero and one, follow the
//! order of the scores, and sum to one up to rounding. Of the exponential this
//! asks that it does not leave its range, and for the order that it grows.
use crate::attention::{
    head_scale_of, scores_of, vanishing_scores_have_no_weight, MASKED_BITS,
};
use crate::float::{
    lemma_code, lemma_magnitude_increases, lemma_round_exists, magnitude, make, round, F32, ONE_CODE,
};
use crate::math::{is_exp, Math};
use crate::ops::{is_softmax, max_of, softmax_via, sum_of};
use crate::quant::all_finite;
use crate::rounding::{
    lemma_miss, lemma_round_at_least, lemma_round_at_most, lemma_round_ordered,
};
use crate::tensor::Tensor;
use crate::transformer::{BlockTrace, TransformerBlock};
use vstd::arithmetic::power2::{
    lemma2_to64, lemma_pow2_adds, lemma_pow2_pos, lemma_pow2_unfold, pow2,
};
use vstd::prelude::*;

verus! {

/// Exponentials of numbers up to zero lie between zero and one, and that of zero
/// is one.
pub open spec fn exp_is_a_share<M: Math>(m: &M) -> bool {
    forall|x: F32, e: F32| #[trigger]
        is_exp(m, x, e) && !x.nan_spec() && x.key() <= 0 ==> is_share(e) && (x.zero_spec()
            ==> e.key() == ONE_CODE)
}

/// Exponentials grow with their exponents.
pub open spec fn exp_grows<M: Math>(m: &M) -> bool {
    forall|x: F32, y: F32, a: F32, b: F32| #[trigger]
        is_exp(m, x, a) && #[trigger] is_exp(m, y, b) && !x.nan_spec() && !y.nan_spec() && x.key()
            <= y.key() ==> a.key() <= b.key()
}

/// A number lies between zero and one.
pub open spec fn is_share(x: F32) -> bool {
    !x.nan_spec() && 0 <= x.key() <= ONE_CODE
}

/// The sum of numbers without rounding, in units of 2^-149.
pub open spec fn exact_sum(s: Seq<F32>) -> int
    decreases s.len(),
{
    if s.len() == 0 {
        0
    } else {
        exact_sum(s.drop_last()) + s.last().units()
    }
}

/// One, in units of 2^-149.
pub open spec fn one_units() -> int {
    pow2(149) as int
}

/// The order of keys is that of values.
proof fn lemma_units(a: F32, b: F32)
    requires
        a.finite_spec(),
        b.finite_spec(),
        a.key() <= b.key(),
    ensures
        a.units() <= b.units(),
        a.mag() >= 0,
        b.mag() >= 0,
{
    lemma_code(0, 0);
    lemma2_to64();
    let c = a.code_spec();
    let d = b.code_spec();
    if c > 0 {
        lemma_magnitude_increases(0, c);
    }
    if d > 0 {
        lemma_magnitude_increases(0, d);
    }
    if c < d {
        lemma_magnitude_increases(c, d);
    } else if d < c {
        lemma_magnitude_increases(d, c);
    }
}

/// The magnitude of one.
pub(crate) proof fn lemma_one()
    ensures
        magnitude(ONE_CODE as int) == one_units(),
        one_units() > 0x80_0000,
{
    lemma2_to64();
    lemma_code(0x80_0000, 126);
    lemma_pow2_adds(23, 126);
    lemma_pow2_pos(126);
    lemma_pow2_unfold(126);
    lemma_pow2_pos(125);
    assert(0x80_0000 * pow2(126) > 0x80_0000) by (nonlinear_arith)
        requires
            pow2(126) >= 2,
    ;
}

// ---------------------------------------------------------------------------
// Sums
// ---------------------------------------------------------------------------

spec fn all_shares(s: Seq<F32>) -> bool {
    forall|j: int| 0 <= j < s.len() ==> is_share(#[trigger] s[j])
}

/// The unrounded sum of shares.
proof fn lemma_exact_sum(s: Seq<F32>)
    requires
        all_shares(s),
    ensures
        0 <= exact_sum(s) <= s.len() * one_units(),
        forall|j: int| 0 <= j < s.len() ==> (#[trigger] s[j]).units() <= exact_sum(s),
    decreases s.len(),
{
    if s.len() > 0 {
        let init = s.drop_last();
        assert forall|j: int| 0 <= j < init.len() implies is_share(#[trigger] init[j]) by {
            assert(init[j] == s[j]);
        }
        lemma_exact_sum(init);
        lemma_one();
        let last = s.last();
        assert(is_share(s[s.len() - 1]));
        lemma_units(last, F32 { bits: ONE_CODE });
        lemma_units(F32 { bits: 0 }, last);
        lemma_code(0, 0);
        lemma2_to64();
        assert(0 * pow2(0) == 0);
        let n = s.len() as int;
        let p = one_units();
        assert((n - 1) * p + p == n * p) by (nonlinear_arith);
        assert forall|j: int| 0 <= j < s.len() implies (#[trigger] s[j]).units() <= exact_sum(s) by {
            if j < init.len() {
                assert(init[j] == s[j]);
            }
        }
    }
}

/// The sum of shares: no share is greater, and it misses the unrounded sum by at
/// most its 2^23th part for each share.
#[verifier::rlimit(60)]
#[verifier::spinoff_prover]
proof fn lemma_sum(s: Seq<F32>)
    requires
        all_shares(s),
        s.len() <= 0x10_0000,
    ensures
        sum_of(s).finite_spec(),
        sum_of(s).key() >= 0,
        sum_of(s).units() >= 0,
        forall|j: int| 0 <= j < s.len() ==> (#[trigger] s[j]).key() <= sum_of(s).key(),
        (sum_of(s).units() - exact_sum(s)) * 0x80_0000 <= s.len() * exact_sum(s),
        (exact_sum(s) - sum_of(s).units()) * 0x80_0000 <= s.len() * exact_sum(s),
    decreases s.len(),
{
    lemma_code(0, 0);
    lemma2_to64();
    lemma_one();
    assert(0 * pow2(0) == 0);
    if s.len() > 0 {
        let init = s.drop_last();
        assert forall|j: int| 0 <= j < init.len() implies is_share(#[trigger] init[j]) by {
            assert(init[j] == s[j]);
        }
        lemma_sum(init);
        lemma_exact_sum(init);
        lemma_exact_sum(s);
        let last = s.last();
        assert(is_share(s[s.len() - 1]));
        lemma_units(F32 { bits: 0 }, last);
        lemma_units(last, F32 { bits: ONE_CODE });
        let before = sum_of(init);
        lemma_units(F32 { bits: 0 }, before);
        let n = s.len() as int;
        let p = one_units();
        let e0 = exact_sum(init);
        let x = last.units();
        let a = before.units();
        let num = a + x;
        let e1 = e0 + x;
        // The sum stays far below infinity.
        assert((n - 1) * e0 <= 0x10_0000 * e0) by (nonlinear_arith)
            requires
                n - 1 <= 0x10_0000,
                e0 >= 0,
        ;
        assert(a <= 2 * e0);
        assert(num <= 2 * e1);
        assert(n * p <= 0x10_0000 * p) by (nonlinear_arith)
            requires
                n <= 0x10_0000,
                p > 0,
        ;
        lemma_code(0x80_0000, 148);
        lemma_pow2_adds(23, 148);
        lemma_pow2_adds(22, 149);
        let top = 149 * 0x80_0000int;
        assert(magnitude(top) == 0x40_0000 * p);
        assert(num <= magnitude(top) * 1);
        lemma_round_at_most(num, 1, top);
        let c = round(num, 1);
        lemma_round_exists(num, 1);
        lemma_miss(num, 1, c);
        reveal(F32::add_spec);
        let total = sum_of(s);
        assert(total == before.add_spec(last));
        if num == 0 {
            assert(a == 0 && x == 0);
            assert(total.zero_spec());
            lemma_key_of_zero(last);
            lemma_key_of_zero(before);
        } else {
            assert(total == make(false, c));
            assert(total.code_spec() == c && !total.neg_spec());
            lemma_round_at_least(num, last.code_spec());
            lemma_round_at_least(num, before.code_spec());
        }
        assert forall|j: int| 0 <= j < s.len() implies (#[trigger] s[j]).key() <= total.key() by {
            if j < init.len() {
                assert(init[j] == s[j]);
            }
        }
        // What was missed so far, and what this step adds.
        let d = total.units() - num;
        assert(d * 0x100_0000 <= num && -d * 0x100_0000 <= num);
        assert(n * e1 >= (n - 1) * e0 + e1) by (nonlinear_arith)
            requires
                n >= 1,
                e1 >= e0,
                e0 >= 0,
        ;
        assert(total.units() - e1 == d + (a - e0));
        assert(exact_sum(s) == e1);
    }
}

/// A number of value zero stands at zero.
proof fn lemma_key_of_zero(a: F32)
    requires
        a.finite_spec(),
        a.units() == 0,
    ensures
        a.key() == 0,
{
    lemma_code(0, 0);
    lemma2_to64();
    assert(0 * pow2(0) == 0);
    if a.code_spec() > 0 {
        lemma_magnitude_increases(0, a.code_spec());
    }
}

// ---------------------------------------------------------------------------
// Scores
// ---------------------------------------------------------------------------

/// The greatest of finite numbers is one of them.
proof fn lemma_max(x: Seq<F32>) -> (k: int)
    requires
        x.len() > 0,
        all_finite(x),
    ensures
        0 <= k < x.len(),
        max_of(x) == x[k],
        forall|j: int| 0 <= j < x.len() ==> (#[trigger] x[j]).key() <= x[k].key(),
    decreases x.len(),
{
    let init = x.drop_last();
    let n = x.len() - 1;
    assert(x[n].finite_spec());
    if init.len() == 0 {
        assert(max_of(init) == (F32 { bits: 0xff80_0000 }));
        n
    } else {
        assert forall|j: int| 0 <= j < init.len() implies (#[trigger] init[j]).finite_spec() by {
            assert(init[j] == x[j]);
        }
        let k = lemma_max(init);
        assert(init[k] == x[k]);
        assert(x[k].finite_spec());
        let r = if x[k].key() < x[n].key() {
            n
        } else {
            k
        };
        assert forall|j: int| 0 <= j < x.len() implies (#[trigger] x[j]).key() <= x[r].key() by {
            if j < n {
                assert(init[j] == x[j]);
            }
        }
        r
    }
}

/// The difference of two finite numbers in order: it is up to zero, and keeps the
/// order of the first.
proof fn lemma_difference(a: F32, b: F32, top: F32)
    requires
        a.finite_spec(),
        b.finite_spec(),
        top.finite_spec(),
        a.key() <= b.key() <= top.key(),
    ensures
        !a.sub_spec(top).nan_spec(),
        a.sub_spec(top).key() <= b.sub_spec(top).key() <= 0,
        !b.sub_spec(top).nan_spec(),
        b.key() == top.key() ==> b.sub_spec(top).zero_spec(),
{
    reveal(F32::add_spec);
    lemma_units(a, b);
    lemma_units(b, top);
    if b.key() == top.key() {
        lemma_units(top, b);
    }
    let t = top.negated();
    assert(t.code_spec() == top.code_spec());
    assert(t.units() == -top.units());
    let da = top.units() - a.units();
    let db = top.units() - b.units();
    lemma_round_exists(da, 1);
    lemma_round_exists(db, 1);
    lemma_round_ordered(db, da, 1);
    if db == 0 {
        assert(b.sub_spec(top).code_spec() == 0);
    }
    if da > 0 {
        assert(a.sub_spec(top).code_spec() == round(da, 1));
    }
    if db > 0 {
        assert(b.sub_spec(top).code_spec() == round(db, 1));
    }
}

/// The exponentials of a softmax are shares, and one of them is one.
proof fn lemma_exponentials<M: Math>(m: &M, x: Seq<F32>, e: Seq<F32>, y: Seq<F32>) -> (k: int)
    requires
        exp_is_a_share(m),
        softmax_via(m, x, e, y),
        x.len() > 0,
        all_finite(x),
    ensures
        all_shares(e),
        0 <= k < e.len(),
        e[k].key() == ONE_CODE,
{
    let k = lemma_max(x);
    let top = max_of(x);
    assert forall|j: int| 0 <= j < e.len() implies is_share(#[trigger] e[j]) by {
        assert(x[j].finite_spec() && x[k].finite_spec());
        lemma_difference(x[j], x[j], top);
        assert(is_exp(m, x[j].sub_spec(top), e[j]));
    }
    assert(x[k].finite_spec());
    lemma_difference(x[k], x[k], top);
    assert(is_exp(m, x[k].sub_spec(top), e[k]));
    k
}

/// A quotient of a share by a sum that it is part of.
proof fn lemma_quotient(a: F32, total: F32)
    requires
        is_share(a),
        total.finite_spec(),
        total.units() > 0,
        a.key() <= total.key(),
    ensures
        is_share(a.div_spec(total)),
        a.div_spec(total).code_spec() == round(a.mag() * one_units(), total.mag()),
        (a.div_spec(total).units() * total.units() - a.units() * one_units()) * 0x100_0000
            <= a.units() * one_units() + 0x80_0000 * total.units(),
        (a.units() * one_units() - a.div_spec(total).units() * total.units()) * 0x100_0000
            <= a.units() * one_units() + 0x80_0000 * total.units(),
{
    reveal(F32::div_spec);
    lemma_one();
    lemma_code(0, 0);
    lemma2_to64();
    assert(0 * pow2(0) == 0);
    lemma_units(F32 { bits: 0 }, a);
    lemma_units(a, total);
    lemma_units(F32 { bits: 0 }, total);
    assert(!total.neg_spec());
    assert(a.units() == a.mag());
    let p = one_units();
    let num = a.mag() * p;
    let den = total.mag();
    assert(0 <= num && num <= p * den) by (nonlinear_arith)
        requires
            num == a.mag() * p,
            0 <= a.mag() <= den,
            p > 0,
    ;
    assert(magnitude(ONE_CODE as int) * den == p * den);
    lemma_round_at_most(num, den, ONE_CODE as int);
    lemma_round_exists(num, den);
    let c = round(num, den);
    lemma_miss(num, den, c);
    let w = a.div_spec(total);
    assert(w.code_spec() == c);
    if a.neg_spec() {
        assert(a.code_spec() == 0);
        assert(num == 0) by (nonlinear_arith)
            requires
                num == a.mag() * p,
                a.mag() == 0,
        ;
        lemma_round_at_most(0, den, 0);
        assert(c == 0);
    }
    assert(w.units() == magnitude(c));
}

/// The unrounded sum of the weights, times their divisor, is the sum of the
/// exponentials up to what each quotient misses.
proof fn lemma_weights(e: Seq<F32>, y: Seq<F32>, total: F32)
    requires
        all_shares(e),
        y.len() == e.len(),
        total.finite_spec(),
        total.units() > 0,
        forall|j: int| 0 <= j < e.len() ==> (#[trigger] e[j]).key() <= total.key(),
        forall|j: int| 0 <= j < e.len() ==> #[trigger] y[j] == e[j].div_spec(total),
    ensures
        (exact_sum(y) * total.units() - exact_sum(e) * one_units()) * 0x100_0000 <= exact_sum(e)
            * one_units() + e.len() * (0x80_0000 * total.units()),
        (exact_sum(e) * one_units() - exact_sum(y) * total.units()) * 0x100_0000 <= exact_sum(e)
            * one_units() + e.len() * (0x80_0000 * total.units()),
    decreases e.len(),
{
    if e.len() > 0 {
        let e0 = e.drop_last();
        let y0 = y.drop_last();
        let n = e.len() as int;
        assert forall|j: int| 0 <= j < e0.len() implies is_share(#[trigger] e0[j]) && e0[j].key()
            <= total.key() by {
            assert(e0[j] == e[j]);
        }
        assert forall|j: int| 0 <= j < e0.len() implies #[trigger] y0[j] == e0[j].div_spec(total) by {
            assert(y0[j] == y[j] && e0[j] == e[j]);
        }
        lemma_weights(e0, y0, total);
        let a = e[n - 1];
        assert(y[n - 1] == a.div_spec(total));
        lemma_quotient(a, total);
        let s = total.units();
        let p = one_units();
        let u = 0x80_0000 * s;
        let ys = exact_sum(y0);
        let es = exact_sum(e0);
        let w = y[n - 1].units();
        let x = a.units();
        assert((ys + w) * s == ys * s + w * s) by (nonlinear_arith);
        assert((es + x) * p == es * p + x * p) by (nonlinear_arith);
        assert(n * u == (n - 1) * u + u) by (nonlinear_arith);
    } else {
        assert(0 * total.units() == 0 && 0 * one_units() == 0);
    }
}

/// The sum of the weights from what the sum and the quotients miss.
proof fn lemma_one_up_to(n: int, p: int, s: int, e: int, y: int)
    requires
        1 <= n <= 0x10_0000,
        p > 0x80_0000,
        s > 0,
        e > 0,
        (s - e) * 0x80_0000 <= n * e,
        (e - s) * 0x80_0000 <= n * e,
        (y * s - e * p) * 0x100_0000 <= e * p + n * (0x80_0000 * s),
        (e * p - y * s) * 0x100_0000 <= e * p + n * (0x80_0000 * s),
    ensures
        (y - p) * 0x100_0000 <= (4 * n + 2) * p,
        (p - y) * 0x100_0000 <= (4 * n + 2) * p,
{
    assert(n * e <= 0x10_0000 * e) by (nonlinear_arith)
        requires
            n <= 0x10_0000,
            e > 0,
    ;
    assert(7 * e <= 8 * s);
    assert(7 * (e * p) <= 8 * (s * p)) by (nonlinear_arith)
        requires
            7 * e <= 8 * s,
            p > 0,
    ;
    let ne = n * e;
    let ns = n * s;
    assert(7 * ne <= 8 * ns) by (nonlinear_arith)
        requires
            7 * e <= 8 * s,
            n >= 1,
            ne == n * e,
            ns == n * s,
    ;
    let d = e - s;
    assert(d * 0x80_0000 <= ne && -d * 0x80_0000 <= ne);
    let dp = d * p;
    let nsp = ns * p;
    assert(7 * (dp * 0x80_0000) <= 8 * nsp && 7 * (-dp * 0x80_0000) <= 8 * nsp) by (nonlinear_arith)
        requires
            d * 0x80_0000 <= ne,
            -d * 0x80_0000 <= ne,
            7 * ne <= 8 * ns,
            p > 0,
            dp == d * p,
            nsp == ns * p,
    ;
    assert(e * p - s * p == dp) by (nonlinear_arith)
        requires
            dp == d * p,
            d == e - s,
    ;
    assert(n * (0x80_0000 * s) == 0x80_0000 * ns) by (nonlinear_arith)
        requires
            ns == n * s,
    ;
    assert(0x80_0000 * ns <= nsp) by (nonlinear_arith)
        requires
            nsp == ns * p,
            p > 0x80_0000,
            ns >= 0,
    ;
    let gap = y - p;
    let sp = s * p;
    assert(y * s - sp == gap * s) by (nonlinear_arith)
        requires
            sp == s * p,
            gap == y - p,
    ;
    assert(gap * s * 0x100_0000 <= 2 * sp + nsp + 0x100_0000 * dp);
    assert(7 * (0x100_0000 * dp) <= 16 * nsp && 7 * (0x100_0000 * -dp) <= 16 * nsp);
    lemma_bound(n, p, s, ns, nsp, sp, gap, dp);
}

/// The last step: what holds of multiples by `s` holds without it.
proof fn lemma_bound(n: int, p: int, s: int, ns: int, nsp: int, sp: int, gap: int, dp: int)
    requires
        n >= 1,
        p > 0x80_0000,
        s > 0,
        ns == n * s,
        nsp == ns * p,
        sp == s * p,
        gap * s * 0x100_0000 <= 2 * sp + nsp + 0x100_0000 * dp,
        -(gap * s) * 0x100_0000 <= 2 * sp + nsp - 0x100_0000 * dp,
        7 * (0x100_0000 * dp) <= 16 * nsp,
        7 * (0x100_0000 * -dp) <= 16 * nsp,
    ensures
        gap * 0x100_0000 <= (4 * n + 2) * p,
        -gap * 0x100_0000 <= (4 * n + 2) * p,
{
    assert(nsp >= sp) by (nonlinear_arith)
        requires
            ns == n * s,
            nsp == ns * p,
            sp == s * p,
            n >= 1,
            s > 0,
            p > 0,
    ;
    let k = (4 * n + 2) * p;
    assert(k * s == 4 * nsp + 2 * sp) by (nonlinear_arith)
        requires
            k == (4 * n + 2) * p,
            ns == n * s,
            nsp == ns * p,
            sp == s * p,
    ;
    let g = gap * 0x100_0000;
    assert(g * s == gap * s * 0x100_0000) by (nonlinear_arith)
        requires
            g == gap * 0x100_0000,
    ;
    assert(g * s <= k * s && -(g * s) <= k * s);
    assert(g <= k && -g <= k) by (nonlinear_arith)
        requires
            g * s <= k * s,
            -(g * s) <= k * s,
            s > 0,
    ;
}

// ---------------------------------------------------------------------------
// Laws
// ---------------------------------------------------------------------------

/// The weights of a softmax of finite scores lie between zero and one, and they
/// sum to one: without further rounding their sum is at most `(4 * n + 2) / 2^24`
/// away from it, for `n` weights.
pub proof fn softmax_weights_sum_to_one<M: Math>(m: &M, x: Seq<F32>, y: Seq<F32>)
    requires
        exp_is_a_share(m),
        is_softmax(m, x, y),
        0 < x.len() <= 0x10_0000,
        all_finite(x),
    ensures
        forall|j: int| 0 <= j < y.len() ==> is_share(#[trigger] y[j]),
        (exact_sum(y) - one_units()) * 0x100_0000 <= (4 * x.len() + 2) * one_units(),
        (one_units() - exact_sum(y)) * 0x100_0000 <= (4 * x.len() + 2) * one_units(),
{
    let e = choose|e: Seq<F32>| softmax_via(m, x, e, y);
    let k = lemma_exponentials(m, x, e, y);
    let total = sum_of(e);
    lemma_divisor(e, k);
    assert forall|j: int| 0 <= j < y.len() implies is_share(#[trigger] y[j]) by {
        assert(y[j] == e[j].div_spec(total));
        assert(is_share(e[j]));
        lemma_quotient(e[j], total);
    }
    lemma_weights(e, y, total);
    lemma_one_up_to(x.len() as int, one_units(), total.units(), exact_sum(e), exact_sum(y));
}

/// The divisor of a softmax is positive.
proof fn lemma_divisor(e: Seq<F32>, k: int)
    requires
        all_shares(e),
        e.len() <= 0x10_0000,
        0 <= k < e.len(),
        e[k].key() == ONE_CODE,
    ensures
        sum_of(e).finite_spec(),
        sum_of(e).units() > 0,
        exact_sum(e) > 0,
        forall|j: int| 0 <= j < e.len() ==> (#[trigger] e[j]).key() <= sum_of(e).key(),
        (sum_of(e).units() - exact_sum(e)) * 0x80_0000 <= e.len() * exact_sum(e),
        (exact_sum(e) - sum_of(e).units()) * 0x80_0000 <= e.len() * exact_sum(e),
        one_units() > 0x80_0000,
{
    lemma_sum(e);
    lemma_exact_sum(e);
    lemma_one();
    assert(is_share(e[k]));
    lemma_units(F32 { bits: ONE_CODE }, e[k]);
    lemma_units(F32 { bits: ONE_CODE }, sum_of(e));
}

/// The weights of a softmax follow the order of the scores.
pub proof fn softmax_weights_follow_the_scores<M: Math>(
    m: &M,
    x: Seq<F32>,
    y: Seq<F32>,
    i: int,
    j: int,
)
    requires
        exp_is_a_share(m),
        exp_grows(m),
        is_softmax(m, x, y),
        x.len() <= 0x10_0000,
        all_finite(x),
        0 <= i < x.len(),
        0 <= j < x.len(),
        x[i].key() <= x[j].key(),
    ensures
        y[i].key() <= y[j].key(),
{
    let e = choose|e: Seq<F32>| softmax_via(m, x, e, y);
    let k = lemma_exponentials(m, x, e, y);
    let total = sum_of(e);
    lemma_divisor(e, k);
    let t = lemma_max(x);
    let top = max_of(x);
    assert(x[i].finite_spec() && x[j].finite_spec() && x[t].finite_spec());
    lemma_difference(x[i], x[j], top);
    assert(is_exp(m, x[i].sub_spec(top), e[i]));
    assert(is_exp(m, x[j].sub_spec(top), e[j]));
    assert(is_share(e[i]) && is_share(e[j]));
    lemma_quotient(e[i], total);
    lemma_quotient(e[j], total);
    lemma_units(e[i], e[j]);
    lemma_units(F32 { bits: 0 }, e[i]);
    lemma_units(F32 { bits: 0 }, e[j]);
    lemma_one();
    lemma_code(0, 0);
    lemma2_to64();
    assert(0 * pow2(0) == 0);
    let p = one_units();
    let a = e[i].mag() * p;
    let b = e[j].mag() * p;
    assert(0 <= a <= b) by (nonlinear_arith)
        requires
            0 <= e[i].mag() <= e[j].mag(),
            p > 0,
            a == e[i].mag() * p,
            b == e[j].mag() * p,
    ;
    lemma_round_ordered(a, b, total.mag());
    assert(y[i] == e[i].div_spec(total) && y[j] == e[j].div_spec(total));
}

/// The scores of head `h` in row `r` of a block: those of the keys that the row
/// sees, and the mask for the others.
pub open spec fn row_scores(b: TransformerBlock, tr: BlockTrace, r: int, h: int) -> Seq<F32> {
    let t = b.context as int;
    let c = b.width as int;
    let hd = b.head_dim();
    scores_of(
        tr.q.data@,
        r * c + h * hd,
        tr.k.data@,
        (r / t) * t * c + h * hd,
        c,
        hd,
        t,
        r % t + 1,
        head_scale_of(hd),
    )
}

/// The attention weights of head `h` in row `r` of a block.
pub open spec fn row_weights(b: TransformerBlock, tr: BlockTrace, r: int, h: int) -> Seq<F32> {
    let t = b.context as int;
    tr.weights@.subrange(b.unit(r, h) * t, b.unit(r, h) * t + t)
}

/// The attention weights of a row of a block, one for each key, lie between zero
/// and one and sum to one up to rounding. A key after the row has no weight, if
/// the exponential of the mask below the greatest score is zero.
pub proof fn attention_rows_sum_to_one<M: Math>(
    b: TransformerBlock,
    m: &M,
    x: Tensor,
    tr: BlockTrace,
    y: Tensor,
    r: int,
    h: int,
)
    requires
        exp_is_a_share(m),
        b.explains(m, x, tr, y),
        0 < b.context <= 0x10_0000,
        0 <= r < x.shape@[0],
        0 <= h < b.heads,
        all_finite(row_scores(b, tr, r, h)),
    ensures
        ({
            let w = row_weights(b, tr, r, h);
            let t = b.context as int;
            let top = max_of(row_scores(b, tr, r, h));
            &&& w.len() == t
            &&& forall|j: int| 0 <= j < t ==> is_share(#[trigger] w[j])
            &&& (exact_sum(w) - one_units()) * 0x100_0000 <= (4 * t + 2) * one_units()
            &&& (one_units() - exact_sum(w)) * 0x100_0000 <= (4 * t + 2) * one_units()
            &&& (forall|e: F32| #[trigger]
                is_exp(m, F32 { bits: MASKED_BITS }.sub_spec(top), e) ==> e.zero_spec())
                ==> forall|j: int| r % t < j < t ==> (#[trigger] w[j]).zero_spec()
        }),
{
    let t = b.context as int;
    let s = row_scores(b, tr, r, h);
    let w = row_weights(b, tr, r, h);
    assert(b.attends(m, tr, r, h));
    assert(is_softmax(m, s, w));
    softmax_weights_sum_to_one(m, s, w);
    let top = max_of(s);
    if forall|e: F32| #[trigger]
        is_exp(m, F32 { bits: MASKED_BITS }.sub_spec(top), e) ==> e.zero_spec() {
        assert forall|j: int| r % t < j < t implies (#[trigger] w[j]).zero_spec() by {
            assert(s[j] == (F32 { bits: MASKED_BITS }));
            vanishing_scores_have_no_weight(m, s, w, j);
            assert(is_share(w[j]));
        }
    }
}

} // verus!
