//! What the activations are for: where they rise, what they keep, and how they
//! relate. Of the exponential this asks that it grows, is not negative, and is one
//! at zero; of the hyperbolic tangent that it grows.
use crate::activation::{is_sigmoid, is_silu, one, Activation};
use crate::float::{
    lemma_code, lemma_magnitude_increases, lemma_round_exists, lemma_round_unique, magnitude, round,
    F32, INF_CODE, ONE_CODE,
};
use crate::float_errors::{
    lemma_add_ordered, lemma_bounded_product, lemma_cancel, lemma_div_falls, lemma_div_miss,
    lemma_order, lemma_unit, lemma_value, positive, size, unit,
};
use crate::index::lemma_row;
use crate::math::{is_exp, is_tanh, Math};
use crate::ops::{is_softmax, row_of};
use crate::quant::all_finite;
use crate::rounding::{lemma_round_at_least, lemma_round_at_most, lemma_round_ordered};
use crate::softmax_shares::{
    exact_sum, exp_grows, exp_is_a_share, is_share, one_units, softmax_weights_follow_the_scores,
    softmax_weights_sum_to_one,
};
use crate::tensor::{lemma_product_2, Tensor};
use vstd::arithmetic::power2::{lemma2_to64, lemma_pow2_adds};
use vstd::prelude::*;

verus! {

/// Exponentials are not negative; they are at most one up to zero, and at least one
/// from zero on.
pub open spec fn exp_is_positive<M: Math>(m: &M) -> bool {
    forall|x: F32, e: F32| #[trigger]
        is_exp(m, x, e) && !x.nan_spec() ==> {
            &&& !e.nan_spec()
            &&& e.key() >= 0
            &&& x.key() <= 0 ==> e.key() <= ONE_CODE
            &&& x.key() >= 0 ==> e.key() >= ONE_CODE
        }
}

/// Hyperbolic tangents grow.
pub open spec fn tanh_grows<M: Math>(m: &M) -> bool {
    forall|x: F32, y: F32, a: F32, b: F32| #[trigger]
        is_tanh(m, x, a) && #[trigger] is_tanh(m, y, b) && !x.nan_spec() && !y.nan_spec() && x.key()
            <= y.key() ==> a.key() <= b.key()
}

/// The code of one half.
pub open spec fn half_code() -> int {
    0x3f00_0000
}

pub(crate) proof fn lemma_half()
    ensures
        2 * magnitude(half_code()) == unit(),
        magnitude(128 * 0x80_0000int) == 2 * unit(),
{
    lemma2_to64();
    lemma_code(0x80_0000, 125);
    lemma_pow2_adds(23, 125);
    lemma_pow2_adds(1, 148);
    lemma_code(0x80_0000, 127);
    lemma_pow2_adds(23, 127);
    lemma_pow2_adds(1, 149);
}

/// One and an exponential: at least one, and infinite only with the exponential.
#[verifier::rlimit(60)]
#[verifier::spinoff_prover]
proof fn lemma_denominator(e: F32)
    requires
        !e.nan_spec(),
        e.key() >= 0,
    ensures
        ({
            let d = one().add_spec(e);
            &&& !d.nan_spec()
            &&& !d.neg_spec()
            &&& d.key() >= ONE_CODE
            &&& e.key() <= ONE_CODE ==> d.key() <= 0x4000_0000
            &&& e.key() >= ONE_CODE ==> d.key() >= 0x4000_0000
            &&& d.finite_spec() ==> positive(d) && d.units() >= unit()
        }),
{
    reveal(F32::add_spec);
    lemma_unit();
    lemma_half();
    let d = one().add_spec(e);
    if e.finite_spec() {
        lemma_value(e);
        let n = unit() + e.units();
        lemma_round_at_least(n, ONE_CODE as int);
        let top = 128 * 0x80_0000int;
        let f = F32 { bits: ONE_CODE };
        lemma_order(e, f);
        lemma_order(f, e);
        if e.key() <= ONE_CODE {
            lemma_round_at_most(n, 1, top);
        }
        if e.key() >= ONE_CODE {
            lemma_round_at_least(n, top);
        }
        lemma_round_exists(n, 1);
        if d.finite_spec() {
            lemma_value(d);
            lemma_order(f, d);
        }
    }
}

/// The denominators of a larger exponential are no smaller.
proof fn lemma_denominators(e: F32, f: F32)
    requires
        !e.nan_spec(),
        !f.nan_spec(),
        0 <= e.key() <= f.key(),
    ensures
        one().add_spec(e).key() <= one().add_spec(f).key(),
{
    reveal(F32::add_spec);
    lemma_unit();
    lemma_denominator(e);
    lemma_denominator(f);
    if e.finite_spec() && f.finite_spec() {
        lemma_order(e, f);
        lemma_add_ordered(one(), e, f);
    }
}

/// One over a number of at least one.
#[verifier::rlimit(60)]
#[verifier::spinoff_prover]
proof fn lemma_share(d: F32)
    requires
        !d.nan_spec(),
        !d.neg_spec(),
        d.key() >= ONE_CODE,
        d.finite_spec() ==> positive(d) && d.units() >= unit(),
    ensures
        ({
            let y = one().div_spec(d);
            &&& !y.nan_spec()
            &&& y.finite_spec()
            &&& 0 <= y.key() <= ONE_CODE
            &&& d.key() <= 0x4000_0000 ==> y.key() >= half_code()
            &&& d.key() >= 0x4000_0000 ==> y.key() <= half_code()
        }),
{
    reveal(F32::div_spec);
    lemma_unit();
    lemma_half();
    let y = one().div_spec(d);
    if d.finite_spec() {
        lemma_value(d);
        let p = unit();
        let num = one().mag() * p;
        let two = F32 { bits: 0x4000_0000 };
        assert(two.mag() == 2 * p && two.units() == 2 * p);
        lemma_order(d, two);
        lemma_order(two, d);
        let m = d.mag();
        let h = magnitude(half_code());
        assert(num >= 0 && num <= p * m && (m >= 2 * p ==> num <= h * m) && (m <= 2 * p ==> num >= h
            * m)) by (nonlinear_arith)
            requires
                num == p * p,
                2 * h == p,
                m >= p,
                p > 0,
        ;
        lemma_round_at_most(num, m, ONE_CODE as int);
        if d.key() >= 0x4000_0000 {
            lemma_round_at_most(num, m, half_code());
        }
        if d.key() <= 0x4000_0000 {
            lemma_quotient_at_least(num, m, half_code());
        }
    }
}

/// What is at least a magnitude rounds to at least its code.
proof fn lemma_quotient_at_least(num: int, den: int, c: int)
    requires
        den > 0,
        0 <= c <= INF_CODE,
        num >= magnitude(c) * den,
        num >= 0,
    ensures
        round(num, den) >= c,
{
    let w = magnitude(c) * den;
    assert(w >= 0) by {
        lemma_code(0, 0);
        lemma2_to64();
        if c > 0 {
            lemma_magnitude_increases(0, c);
        }
        assert(magnitude(c) * den >= 0) by (nonlinear_arith)
            requires
                magnitude(c) >= 0,
                den > 0,
        ;
    }
    lemma_round_ordered(w, num, den);
    lemma_whole_quotient(c, den);
}

/// A multiple of a magnitude over the factor is the magnitude.
proof fn lemma_whole_quotient(c: int, k: int)
    requires
        k > 0,
        0 <= c <= INF_CODE,
    ensures
        round(magnitude(c) * k, k) == c,
{
    let mid = magnitude(c);
    lemma_magnitude_increases(c, c + 1);
    let num = mid * k;
    assert(2 * num < (mid + magnitude(c + 1)) * k) by (nonlinear_arith)
        requires
            num == mid * k,
            mid < magnitude(c + 1),
            k > 0,
    ;
    if c > 0 {
        lemma_magnitude_increases(c - 1, c);
        assert((magnitude(c - 1) + mid) * k < 2 * num) by (nonlinear_arith)
            requires
                num == mid * k,
                magnitude(c - 1) < mid,
                k > 0,
        ;
    }
    lemma_round_unique(num, k, c);
}

/// What a sigmoid is made of.
proof fn lemma_sigmoid<M: Math>(m: &M, x: F32, y: F32) -> (e: F32)
    requires
        exp_is_positive(m),
        exp_grows(m),
        is_sigmoid(m, x, y),
        !x.nan_spec(),
    ensures
        is_exp(m, x.negated(), e),
        !e.nan_spec(),
        e.key() >= 0,
        y == one().div_spec(one().add_spec(e)),
        !y.nan_spec(),
        y.finite_spec(),
        0 <= y.key() <= ONE_CODE,
{
    let e = choose|e: F32|
        is_exp(m, x.negated(), e) && y == one().div_spec(one().add_spec(e));
    lemma_denominator(e);
    lemma_share(one().add_spec(e));
    e
}

/// Half of the law below.
proof fn lemma_rises<M: Math>(m: &M, x: F32, w: F32, y: F32, z: F32)
    requires
        exp_is_positive(m),
        exp_grows(m),
        is_sigmoid(m, x, y),
        is_sigmoid(m, w, z),
        !x.nan_spec(),
        !w.nan_spec(),
        x.key() <= w.key(),
    ensures
        y.key() <= z.key(),
{
    reveal(F32::div_spec);
    let e = lemma_sigmoid(m, x, y);
    let f = lemma_sigmoid(m, w, z);
    assert(w.negated().key() <= x.negated().key());
    assert(f.key() <= e.key());
    lemma_denominators(f, e);
    lemma_denominator(e);
    lemma_denominator(f);
    let c = one().add_spec(f);
    let d = one().add_spec(e);
    lemma_unit();
    if d.finite_spec() {
        lemma_order(c, d);
        lemma_div_falls(one(), c, d);
    }
}

/// The sigmoid activation rises: of two elements the larger becomes no smaller,
/// all lie between zero and one, what is not negative becomes at least one half and
/// what is not positive at most.
pub proof fn sigmoids_rise<M: Math>(m: &M, x: Tensor, t: Tensor, i: int, j: int)
    requires
        exp_is_positive(m),
        exp_grows(m),
        Activation::Sigmoid.is_output(m, x, t),
        0 <= i < x.data@.len(),
        0 <= j < x.data@.len(),
        !x.data@[i].nan_spec(),
        !x.data@[j].nan_spec(),
    ensures
        0 <= t.data@[i].key() <= ONE_CODE,
        x.data@[i].key() <= x.data@[j].key() ==> t.data@[i].key() <= t.data@[j].key(),
        x.data@[i].key() >= 0 ==> t.data@[i].key() >= half_code(),
        x.data@[i].key() <= 0 ==> t.data@[i].key() <= half_code(),
{
    let (a, b) = (x.data@[i], x.data@[j]);
    let (y, z) = (t.data@[i], t.data@[j]);
    assert(Activation::Sigmoid.is_element(m, a, y));
    assert(Activation::Sigmoid.is_element(m, b, z));
    let e = lemma_sigmoid(m, a, y);
    if a.key() <= b.key() {
        lemma_rises(m, a, b, y, z);
    }
    lemma_denominator(e);
    lemma_share(one().add_spec(e));
}

/// A number and the sum of one and the exponential against it.
#[verifier::rlimit(60)]
#[verifier::spinoff_prover]
proof fn lemma_silu(x: F32, d: F32)
    requires
        x.finite_spec(),
        !d.nan_spec(),
        !d.neg_spec(),
        d.key() >= ONE_CODE,
        d.finite_spec() ==> positive(d) && d.units() >= unit(),
    ensures
        ({
            let y = one().div_spec(d);
            let z = x.div_spec(d);
            &&& z.finite_spec()
            &&& size(z.units()) <= size(x.units())
            &&& z.neg_spec() == x.neg_spec()
            &&& size(z.units() * unit() - x.units() * y.units()) * 0x100_0000 <= (3 * size(
                x.units(),
            ) + 0x80_0000) * unit()
        }),
{
    reveal(F32::div_spec);
    lemma_unit();
    lemma_value(x);
    lemma_share(d);
    let y = one().div_spec(d);
    let z = x.div_spec(d);
    let p = unit();
    let a = x.units();
    if d.finite_spec() {
        lemma_value(d);
        let num = x.mag() * p;
        assert(0 <= num <= x.mag() * d.mag()) by (nonlinear_arith)
            requires
                num == x.mag() * p,
                x.mag() >= 0,
                d.mag() >= p,
                p > 0,
        ;
        lemma_round_at_most(num, d.mag(), x.code_spec());
        lemma_value(z);
        if z.code_spec() < x.code_spec() {
            lemma_magnitude_increases(z.code_spec(), x.code_spec());
        }
        lemma_div_miss(x, d);
        lemma_div_miss(one(), d);
        lemma_both(a, d.units(), y.units(), z.units(), p);
    } else {
        assert(z.units() == 0 && y.units() == 0) by {
            lemma_code(0, 0);
            lemma2_to64();
        }
        assert(0 * p == 0 && a * 0 == 0) by (nonlinear_arith);
        assert((3 * size(a) + 0x80_0000) * p >= 0) by (nonlinear_arith)
            requires
                size(a) >= 0,
                p > 0,
        ;
    }
}

/// Two quotients by one divisor.
#[verifier::rlimit(60)]
#[verifier::spinoff_prover]
proof fn lemma_both(a: int, d: int, y: int, z: int, p: int)
    requires
        p >= 0x100_0000,
        d >= p,
        size(z * d - a * p) * 0x100_0000 <= size(a) * p + 0x80_0000 * size(d),
        size(y * d - p * p) * 0x100_0000 <= size(p) * p + 0x80_0000 * size(d),
    ensures
        size(z * p - a * y) * 0x100_0000 <= (3 * size(a) + 0x80_0000) * p,
{
    let e = (z * d - a * p) * 0x100_0000;
    let f = (y * d - p * p) * 0x100_0000;
    let sa = size(a);
    let k = sa * p + 0x80_0000 * d;
    let l = p * p + 0x80_0000 * d;
    lemma_bounded_product(e, p, k, p);
    lemma_bounded_product(a, f, sa, l);
    let g = (z * p - a * y) * 0x100_0000;
    assert(g * d == e * p - a * f) by {
        let (u, v) = (z * d - a * p, y * d - p * p);
        assert((z * p - a * y) * d == u * p - a * v) by (nonlinear_arith)
            requires
                u == z * d - a * p,
                v == y * d - p * p,
        ;
        assert(e * p == (u * p) * 0x100_0000) by (nonlinear_arith)
            requires
                e == u * 0x100_0000,
        ;
        assert(a * f == (a * v) * 0x100_0000) by (nonlinear_arith)
            requires
                f == v * 0x100_0000,
        ;
        assert(g * d == ((z * p - a * y) * d) * 0x100_0000) by (nonlinear_arith)
            requires
                g == (z * p - a * y) * 0x100_0000,
        ;
    }
    let most = (3 * sa + 0x80_0000) * p;
    assert(k * p + sa * l <= most * d) by (nonlinear_arith)
        requires
            k == sa * p + 0x80_0000 * d,
            l == p * p + 0x80_0000 * d,
            most == (3 * sa + 0x80_0000) * p,
            d >= p,
            p >= 0x80_0000,
            sa >= 0,
    ;
    assert(-g * d == -(g * d)) by (nonlinear_arith);
    lemma_cancel(g, most, d);
    lemma_cancel(-g, most, d);
}

/// SiLU is the element times its sigmoid, up to rounding: it keeps the sign and is
/// no larger than the element.
pub proof fn silu_is_the_element_times_its_sigmoid<M: Math>(
    m: &M,
    x: Tensor,
    s: Tensor,
    t: Tensor,
    i: int,
)
    requires
        exp_is_positive(m),
        exp_grows(m),
        Activation::Sigmoid.is_output(m, x, s),
        Activation::SiLU.is_output(m, x, t),
        0 <= i < x.data@.len(),
        x.data@[i].finite_spec(),
    ensures
        ({
            let (a, y, z) = (x.data@[i], s.data@[i], t.data@[i]);
            &&& z.finite_spec()
            &&& size(z.units()) <= size(a.units())
            &&& z.neg_spec() == a.neg_spec()
            &&& size(z.units() * unit() - a.units() * y.units()) * 0x100_0000 <= (3 * size(a.units())
                + 0x80_0000) * unit()
        }),
{
    let (a, y, z) = (x.data@[i], s.data@[i], t.data@[i]);
    assert(Activation::Sigmoid.is_element(m, a, y));
    assert(Activation::SiLU.is_element(m, a, z));
    gates_are_elements_times_sigmoids(m, a, y, z);
}

/// As `silu_is_the_element_times_its_sigmoid`, for one number.
pub proof fn gates_are_elements_times_sigmoids<M: Math>(m: &M, a: F32, y: F32, z: F32)
    requires
        exp_is_positive(m),
        exp_grows(m),
        is_sigmoid(m, a, y),
        is_silu(m, a, z),
        a.finite_spec(),
    ensures
        z.finite_spec(),
        size(z.units()) <= size(a.units()),
        z.neg_spec() == a.neg_spec(),
        size(z.units() * unit() - a.units() * y.units()) * 0x100_0000 <= (3 * size(a.units())
            + 0x80_0000) * unit(),
{
    let e = lemma_sigmoid(m, a, y);
    let f = choose|e: F32|
        is_exp(m, a.negated(), e) && z == a.div_spec(one().add_spec(e));
    // The exponential of one number has one value.
    assert(e.key() == f.key());
    lemma_denominators(e, f);
    lemma_denominators(f, e);
    lemma_denominator(e);
    lemma_denominator(f);
    assert(one().add_spec(e) == one().add_spec(f));
    lemma_silu(a, one().add_spec(e));
}

/// ReLU keeps what is positive, and makes zero of the rest.
pub proof fn relu_keeps_what_is_positive<M: Math>(m: &M, x: Tensor, t: Tensor, i: int)
    requires
        Activation::ReLU.is_output(m, x, t),
        0 <= i < x.data@.len(),
        !x.data@[i].nan_spec(),
    ensures
        x.data@[i].key() > 0 ==> t.data@[i] == x.data@[i],
        x.data@[i].key() <= 0 ==> t.data@[i].zero_spec(),
{
    assert(Activation::ReLU.is_element(m, x.data@[i], t.data@[i]));
}

/// The hyperbolic tangent activation rises, and the identity changes nothing.
pub proof fn tangents_rise<M: Math>(m: &M, x: Tensor, t: Tensor, i: int, j: int)
    requires
        tanh_grows(m),
        Activation::Tanh.is_output(m, x, t),
        0 <= i < x.data@.len(),
        0 <= j < x.data@.len(),
        !x.data@[i].nan_spec(),
        !x.data@[j].nan_spec(),
        x.data@[i].key() <= x.data@[j].key(),
    ensures
        t.data@[i].key() <= t.data@[j].key(),
        is_tanh(m, x.data@[i], t.data@[i]),
{
    assert(Activation::Tanh.is_element(m, x.data@[i], t.data@[i]));
    assert(Activation::Tanh.is_element(m, x.data@[j], t.data@[j]));
}

/// The identity changes nothing.
pub proof fn the_identity_changes_nothing<M: Math>(m: &M, x: Tensor, t: Tensor)
    requires
        Activation::Identity.is_output(m, x, t),
    ensures
        t.data@ == x.data@,
        t.shape@ == x.shape@,
{
    assert forall|i: int| 0 <= i < x.data@.len() implies t.data@[i] == x.data@[i] by {
        assert(Activation::Identity.is_element(m, x.data@[i], t.data@[i]));
    }
    assert(t.data@ =~= x.data@);
}

/// Softmax makes each row shares that sum to one, up to rounding, and follow the
/// order of the row.
pub proof fn softmax_rows_are_shares<M: Math>(m: &M, x: Tensor, t: Tensor, r: int, i: int, j: int)
    requires
        exp_is_a_share(m),
        exp_grows(m),
        x.wf(),
        Activation::Softmax.is_output(m, x, t),
        0 <= r < x.shape@[0],
        0 <= i < x.shape@[1],
        0 <= j < x.shape@[1],
        x.shape@[1] <= 0x10_0000,
        all_finite(row_of(x.data@, r, x.shape@[1] as int)),
    ensures
        ({
            let c = x.shape@[1] as int;
            let (a, y) = (row_of(x.data@, r, c), row_of(t.data@, r, c));
            &&& forall|k: int| 0 <= k < c ==> is_share(#[trigger] y[k])
            &&& size(exact_sum(y) - one_units()) * 0x100_0000 <= (4 * c + 2) * one_units()
            &&& a[i].key() <= a[j].key() ==> y[i].key() <= y[j].key()
        }),
{
    let c = x.shape@[1] as int;
    let (a, y) = (row_of(x.data@, r, c), row_of(t.data@, r, c));
    lemma_product_2(x.shape@);
    lemma_row(r, x.shape@[0] as int, c);
    assert(is_softmax(m, a, y));
    assert(y.len() == c);
    softmax_weights_sum_to_one(m, a, y);
    if a[i].key() <= a[j].key() {
        softmax_weights_follow_the_scores(m, a, y, i, j);
    }
}

} // verus!
